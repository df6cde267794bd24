//! The entities the commands act on: the battlemap and the tokens on it,
//! with the merge policy for partial updates.
use vstd::prelude::*;
use vstd::string::StringExecFns;
use crate::chess::Coordinates;
use crate::chess::CoordinatesView;
use crate::commands;

verus! {

/// The battlemap: a background image reference and its grid dimensions.
#[derive(Debug, PartialEq)]
pub struct Battlemap {
    pub image_path: String,
    pub rows: i32,
    pub columns: i32,
}

/// The mathematical value of a battlemap.
pub struct BattlemapView {
    pub image_path: Seq<char>,
    pub rows: int,
    pub columns: int,
}

impl View for Battlemap {
    type V = BattlemapView;

    open spec fn view(&self) -> BattlemapView {
        BattlemapView {
            image_path: self.image_path@,
            rows: self.rows as int,
            columns: self.columns as int,
        }
    }
}

/// What merging a partial update over the previous battlemap yields: each
/// field takes the partial's value if present, else the previous snapshot's
/// value — never a hard default once a map exists.
pub open spec fn merged_battlemap(
    prev: BattlemapView,
    partial: commands::BattlemapView,
) -> BattlemapView {
    BattlemapView {
        image_path: match partial.url {
            Some(u) => u,
            None => prev.image_path,
        },
        rows: match partial.rows {
            Some(r) => r,
            None => prev.rows,
        },
        columns: match partial.columns {
            Some(c) => c,
            None => prev.columns,
        },
    }
}

impl Battlemap {
    pub fn new(image_path: String, rows: i32, columns: i32) -> (r: Battlemap)
        ensures
            r@ == (BattlemapView {
                image_path: image_path@,
                rows: rows as int,
                columns: columns as int,
            }),
    {
        Battlemap { image_path, rows, columns }
    }

    /// The battlemap after a partial update, inheriting absent fields from
    /// `self`.
    pub fn merge(&self, partial: &commands::Battlemap) -> (r: Battlemap)
        ensures
            r@ == merged_battlemap(self@, partial@),
    {
        Battlemap {
            image_path: match &partial.url {
                Some(u) => u.clone(),
                None => self.image_path.clone(),
            },
            rows: match partial.rows {
                Some(r) => r,
                None => self.rows,
            },
            columns: match partial.columns {
                Some(c) => c,
                None => self.columns,
            },
        }
    }
}

/// A token on the map.
#[derive(Debug, PartialEq)]
pub struct Token {
    pub id: String,
    pub image: String,
    pub name: String,
    pub size: String,
    pub max_health: i32,
    pub pos: Coordinates,
    pub initiative: i32,
}

/// The mathematical value of a token.
pub struct TokenView {
    pub id: Seq<char>,
    pub image: Seq<char>,
    pub name: Seq<char>,
    pub size: Seq<char>,
    pub max_health: int,
    pub pos: CoordinatesView,
    pub initiative: int,
}

impl View for Token {
    type V = TokenView;

    open spec fn view(&self) -> TokenView {
        TokenView {
            id: self.id@,
            image: self.image@,
            name: self.name@,
            size: self.size@,
            max_health: self.max_health as int,
            pos: self.pos@,
            initiative: self.initiative as int,
        }
    }
}

/// Picks the partial's value if present, else the prior one if present,
/// else the hard default.
pub open spec fn pick<A>(partial: Option<A>, prior: Option<A>, dflt: A) -> A {
    match partial {
        Some(v) => v,
        None => match prior {
            Some(p) => p,
            None => dflt,
        },
    }
}

/// The value of a prior token, when one exists.
pub open spec fn prior_view(prior: Option<&Token>) -> Option<TokenView> {
    match prior {
        Some(t) => Some(t@),
        None => None,
    }
}

/// What a token update yields: each field takes the partial's value if
/// present, else the prior token's value, else a hard default — an omitted
/// field is never reset once the token exists.
pub open spec fn merged_token(
    partial: commands::TokenView,
    prior: Option<TokenView>,
) -> TokenView {
    TokenView {
        id: partial.token_id,
        image: pick(
            partial.image,
            match prior {
                Some(p) => Some(p.image),
                None => None,
            },
            "./assets/unnamed.png"@,
        ),
        name: pick(
            partial.name,
            match prior {
                Some(p) => Some(p.name),
                None => None,
            },
            "Unnamed"@,
        ),
        size: pick(
            partial.size,
            match prior {
                Some(p) => Some(p.size),
                None => None,
            },
            "small"@,
        ),
        max_health: pick(
            partial.max_health,
            match prior {
                Some(p) => Some(p.max_health),
                None => None,
            },
            10,
        ),
        pos: pick(
            match partial.pos {
                Some(s) => Some(CoordinatesView::Chess(s)),
                None => None,
            },
            match prior {
                Some(p) => Some(p.pos),
                None => None,
            },
            CoordinatesView::Chess("A1"@),
        ),
        initiative: pick(
            partial.initiative,
            match prior {
                Some(p) => Some(p.initiative),
                None => None,
            },
            1,
        ),
    }
}

impl Token {
    pub fn new(
        id: String,
        image: String,
        name: String,
        size: String,
        max_health: i32,
        pos: Coordinates,
        initiative: i32,
    ) -> (r: Token)
        ensures
            r@ == (TokenView {
                id: id@,
                image: image@,
                name: name@,
                size: size@,
                max_health: max_health as int,
                pos: pos@,
                initiative: initiative as int,
            }),
    {
        Token { id, image, name, size, max_health, pos, initiative }
    }

    /// The token after an update: the partial's fields win, absent fields
    /// inherit the prior token's values, and hard defaults fill in when no
    /// prior token exists.
    pub fn from_partial(partial: &commands::Token, prior: Option<&Token>) -> (r: Token)
        ensures
            r@ == merged_token(partial@, prior_view(prior)),
    {
        Token {
            id: partial.token_id.clone(),
            image: match &partial.image {
                Some(v) => v.clone(),
                None => match prior {
                    Some(t) => t.image.clone(),
                    None => String::from_str("./assets/unnamed.png"),
                },
            },
            name: match &partial.name {
                Some(v) => v.clone(),
                None => match prior {
                    Some(t) => t.name.clone(),
                    None => String::from_str("Unnamed"),
                },
            },
            size: match &partial.size {
                Some(v) => v.clone(),
                None => match prior {
                    Some(t) => t.size.clone(),
                    None => String::from_str("small"),
                },
            },
            max_health: match partial.max_health {
                Some(v) => v,
                None => match prior {
                    Some(t) => t.max_health,
                    None => 10,
                },
            },
            pos: match &partial.pos {
                Some(s) => Coordinates::Chess(s.clone()),
                None => match prior {
                    Some(t) => match &t.pos {
                        Coordinates::Chess(s) => Coordinates::Chess(s.clone()),
                        Coordinates::Grid(c, r2) => Coordinates::Grid(*c, *r2),
                    },
                    None => Coordinates::Chess(String::from_str("A1")),
                },
            },
            initiative: match partial.initiative {
                Some(v) => v,
                None => match prior {
                    Some(t) => t.initiative,
                    None => 1,
                },
            },
        }
    }
}

} // verus!
