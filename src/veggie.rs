use vstd::prelude::*;

verus! {

/// A kind of item that a player places on the grid.
#[derive(Clone, Copy, Debug, PartialEq, Eq, Hash, Structural)]
pub enum Veggie {
    Strawberry,
    Tomato,
    Apple,
    Carrot,
    Cherry,
    Garlic,
    Mint,
}

/// The palette that items and text are drawn with.
#[derive(Clone, Copy, Debug, PartialEq, Eq, Structural)]
pub enum Colors {
    Black,
    Navy,
    Beige,
    Red,
    Green,
    Orange,
    Grey,
    DarkBrown,
    Brown,
    DarkRed,
}

/// The face that an item shows for one of its two conditions.
#[derive(Clone, Copy, Debug, PartialEq, Eq, Structural)]
pub enum Expression {
    Neutral,
    Surprised,
    Happy,
    Sad,
}

/// Every item kind, in declaration order.
pub open spec fn all_veggies() -> Seq<Veggie> {
    seq![
        Veggie::Strawberry,
        Veggie::Tomato,
        Veggie::Apple,
        Veggie::Carrot,
        Veggie::Cherry,
        Veggie::Garlic,
        Veggie::Mint,
    ]
}

pub open spec fn sprite_index(v: Veggie) -> usize {
    match v {
        Veggie::Strawberry => 0,
        Veggie::Tomato => 1,
        Veggie::Apple => 2,
        Veggie::Carrot => 3,
        Veggie::Cherry => 4,
        Veggie::Garlic => 5,
        Veggie::Mint => 6,
    }
}

impl Veggie {
    /// Every item kind, in declaration order.
    pub fn all() -> (r: Vec<Veggie>)
        ensures
            r@ == all_veggies(),
    {
        let r = vec![
            Veggie::Strawberry,
            Veggie::Tomato,
            Veggie::Apple,
            Veggie::Carrot,
            Veggie::Cherry,
            Veggie::Garlic,
            Veggie::Mint,
        ];
        assert(r@ =~= all_veggies());
        r
    }

    /// The item's position in the sprite sheet.
    pub fn sprite(&self) -> (r: usize)
        ensures
            r == sprite_index(*self),
    {
        match self {
            Veggie::Strawberry => 0,
            Veggie::Tomato => 1,
            Veggie::Apple => 2,
            Veggie::Carrot => 3,
            Veggie::Cherry => 4,
            Veggie::Garlic => 5,
            Veggie::Mint => 6,
        }
    }

    /// The color behind the item's face.
    pub fn face_bg(&self) -> (r: Colors)
        ensures
            r == (match *self {
                Veggie::Strawberry | Veggie::Tomato | Veggie::Cherry => Colors::Red,
                Veggie::Apple | Veggie::Mint => Colors::Green,
                Veggie::Carrot => Colors::Orange,
                Veggie::Garlic => Colors::Grey,
            }),
    {
        match self {
            Veggie::Strawberry | Veggie::Tomato | Veggie::Cherry => Colors::Red,
            Veggie::Apple | Veggie::Mint => Colors::Green,
            Veggie::Carrot => Colors::Orange,
            Veggie::Garlic => Colors::Grey,
        }
    }

    /// The color the item's face is drawn in.
    pub fn face_fg(&self) -> (r: Colors)
        ensures
            r == (if *self == Veggie::Carrot || *self == Veggie::Garlic {
                Colors::Black
            } else {
                Colors::Beige
            }),
    {
        match self {
            Veggie::Carrot | Veggie::Garlic => Colors::Black,
            _ => Colors::Beige,
        }
    }
}

impl Expression {
    /// The expression's position in the face sprite sheet.
    pub fn index(&self) -> (r: usize)
        ensures
            r == (match *self {
                Expression::Neutral => 0usize,
                Expression::Surprised => 1usize,
                Expression::Sad => 2usize,
                Expression::Happy => 3usize,
            }),
    {
        match self {
            Expression::Neutral => 0,
            Expression::Surprised => 1,
            Expression::Sad => 2,
            Expression::Happy => 3,
        }
    }
}

} // verus!
