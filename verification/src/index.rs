//! Identifiers of collections, and the indexes that exist on them.

use crate::scalar::{clone_exprs, exprs_view, lists_view, Expr, ScalarExpr};
use vstd::prelude::*;
use vstd::string::*;

verus! {

/// The identifier of a collection in the catalog.
#[derive(Clone, Copy, PartialEq, Eq, Structural, Debug)]
pub enum GlobalId {
    /// A collection of the system.
    System(u64),
    /// A collection that a user made.
    User(u64),
    /// A collection that lives as long as one query.
    Transient(u64),
    /// The query that is being explained.
    Explain,
}

/// The character of a decimal digit.
pub open spec fn digit_char(d: nat) -> char {
    if d == 0 {
        '0'
    } else if d == 1 {
        '1'
    } else if d == 2 {
        '2'
    } else if d == 3 {
        '3'
    } else if d == 4 {
        '4'
    } else if d == 5 {
        '5'
    } else if d == 6 {
        '6'
    } else if d == 7 {
        '7'
    } else if d == 8 {
        '8'
    } else {
        '9'
    }
}

/// The number in decimal notation, without leading zeros.
pub open spec fn decimal_text(n: nat) -> Seq<char>
    decreases n,
{
    if n < 10 {
        seq![digit_char(n)]
    } else {
        decimal_text(n / 10).push(digit_char(n % 10))
    }
}

/// The decimal digit `d` as a string.
fn digit_str(d: u64) -> (r: &'static str)
    requires
        d < 10,
    ensures
        r@ == seq![digit_char(d as nat)],
{
    proof {
        reveal_strlit("0");
        reveal_strlit("1");
        reveal_strlit("2");
        reveal_strlit("3");
        reveal_strlit("4");
        reveal_strlit("5");
        reveal_strlit("6");
        reveal_strlit("7");
        reveal_strlit("8");
        reveal_strlit("9");
    }
    let r = if d == 0 {
        "0"
    } else if d == 1 {
        "1"
    } else if d == 2 {
        "2"
    } else if d == 3 {
        "3"
    } else if d == 4 {
        "4"
    } else if d == 5 {
        "5"
    } else if d == 6 {
        "6"
    } else if d == 7 {
        "7"
    } else if d == 8 {
        "8"
    } else {
        "9"
    };
    assert(r@ =~= seq![digit_char(d as nat)]);
    r
}

/// The number in decimal notation, without leading zeros.
pub fn decimal_string(n: u64) -> (r: String)
    ensures
        r@ == decimal_text(n as nat),
    decreases n,
{
    if n < 10 {
        String::from_str(digit_str(n))
    } else {
        let mut s = decimal_string(n / 10);
        s.append(digit_str(n % 10));
        assert(s@ =~= decimal_text((n / 10) as nat).push(digit_char((n % 10) as nat)));
        s
    }
}

impl GlobalId {
    /// The identifier as text: a letter for its kind, and its number.
    pub open spec fn text(self) -> Seq<char> {
        match self {
            GlobalId::System(n) => seq!['s'] + decimal_text(n as nat),
            GlobalId::User(n) => seq!['u'] + decimal_text(n as nat),
            GlobalId::Transient(n) => seq!['t'] + decimal_text(n as nat),
            GlobalId::Explain => "Explained Query"@,
        }
    }

    /// The identifier as text: `s`, `u` or `t` for its kind, and its number.
    pub fn to_string(&self) -> (r: String)
        ensures
            r@ == self.text(),
    {
        proof {
            reveal_strlit("s");
            reveal_strlit("u");
            reveal_strlit("t");
        }
        match self {
            GlobalId::System(n) => {
                let mut s = String::from_str("s");
                s.append(decimal_string(*n).as_str());
                assert(s@ =~= seq!['s'] + decimal_text(*n as nat));
                s
            },
            GlobalId::User(n) => {
                let mut s = String::from_str("u");
                s.append(decimal_string(*n).as_str());
                assert(s@ =~= seq!['u'] + decimal_text(*n as nat));
                s
            },
            GlobalId::Transient(n) => {
                let mut s = String::from_str("t");
                s.append(decimal_string(*n).as_str());
                assert(s@ =~= seq!['t'] + decimal_text(*n as nat));
                s
            },
            GlobalId::Explain => String::from_str("Explained Query"),
        }
    }

    /// The position of the identifier in the order of identifiers: those of
    /// the system first, then those of users, then the transient ones, each
    /// kind by number.
    pub open spec fn rank(self) -> nat {
        match self {
            GlobalId::System(n) => n as nat,
            GlobalId::User(n) => (0x1_0000_0000_0000_0000 + n) as nat,
            GlobalId::Transient(n) => (0x2_0000_0000_0000_0000 + n) as nat,
            GlobalId::Explain => 0x3_0000_0000_0000_0000,
        }
    }

    /// Whether the identifier comes before `other` in the order of
    /// identifiers.
    pub fn precedes(&self, other: &GlobalId) -> (r: bool)
        ensures
            r == (self.rank() < other.rank()),
    {
        let (kind, n): (u8, u64) = match self {
            GlobalId::System(n) => (0, *n),
            GlobalId::User(n) => (1, *n),
            GlobalId::Transient(n) => (2, *n),
            GlobalId::Explain => (3, 0),
        };
        let (other_kind, m): (u8, u64) = match other {
            GlobalId::System(m) => (0, *m),
            GlobalId::User(m) => (1, *m),
            GlobalId::Transient(m) => (2, *m),
            GlobalId::Explain => (3, 0),
        };
        kind < other_kind || (kind == other_kind && n < m)
    }

    /// Whether the collection lives only as long as one query.
    pub fn is_transient(&self) -> (r: bool)
        ensures
            r == (*self is Transient),
    {
        match self {
            GlobalId::Transient(_) => true,
            _ => false,
        }
    }
}

/// Different identifiers have different positions in the order.
pub proof fn lemma_rank_injective(a: GlobalId, b: GlobalId)
    ensures
        a.rank() == b.rank() <==> a == b,
{
}

/// Tells which indexes exist on a collection.
pub trait IndexOracle {
    /// The keys of the indexes on the collection, in the order in which the
    /// oracle lists them.
    spec fn keys_on(&self, id: GlobalId) -> Seq<Seq<Expr>>;

    /// The keys of the indexes on the collection.
    fn indexes_on(&self, id: GlobalId) -> (r: Vec<Vec<ScalarExpr>>)
        ensures
            lists_view(r@) == self.keys_on(id),
    ;
}

/// An index: the collection it is on, and the expressions over that
/// collection's columns by which it is ordered.
#[derive(Debug)]
pub struct Index {
    pub on_id: GlobalId,
    pub keys: Vec<ScalarExpr>,
}

/// A snapshot of the indexes of a catalog.
#[derive(Debug)]
pub struct IndexCatalog {
    pub indexes: Vec<Index>,
}

/// The keys of those of the indexes that are on the collection `id`.
pub open spec fn keys_of_indexes_on(indexes: Seq<Index>, id: GlobalId) -> Seq<Seq<Expr>>
    decreases indexes.len(),
{
    if indexes.len() == 0 {
        Seq::empty()
    } else {
        let head = keys_of_indexes_on(indexes.drop_last(), id);
        if indexes.last().on_id == id {
            head.push(exprs_view(indexes.last().keys@))
        } else {
            head
        }
    }
}

impl IndexCatalog {
    /// A catalog without indexes.
    pub fn new() -> (r: IndexCatalog)
        ensures
            r.indexes@.len() == 0,
    {
        IndexCatalog { indexes: Vec::new() }
    }

    /// Adds an index on the collection `on_id` with the key `keys`, after
    /// the indexes that are there.
    pub fn insert(&mut self, on_id: GlobalId, keys: Vec<ScalarExpr>)
        ensures
            final(self).indexes@ == old(self).indexes@.push(Index { on_id, keys }),
    {
        self.indexes.push(Index { on_id, keys });
    }
}

impl IndexOracle for IndexCatalog {
    open spec fn keys_on(&self, id: GlobalId) -> Seq<Seq<Expr>> {
        keys_of_indexes_on(self.indexes@, id)
    }

    fn indexes_on(&self, id: GlobalId) -> (r: Vec<Vec<ScalarExpr>>) {
        let mut out: Vec<Vec<ScalarExpr>> = Vec::new();
        let mut i: usize = 0;
        assert(lists_view(out@) =~= keys_of_indexes_on(self.indexes@.take(0), id));
        while i < self.indexes.len()
            invariant
                i <= self.indexes.len(),
                lists_view(out@) == keys_of_indexes_on(self.indexes@.take(i as int), id),
            decreases self.indexes.len() - i,
        {
            proof {
                assert(self.indexes@.take(i as int + 1).drop_last() =~= self.indexes@.take(
                    i as int,
                ));
                assert(self.indexes@.take(i as int + 1).last() == self.indexes@[i as int]);
            }
            if self.indexes[i].on_id == id {
                let ghost before = lists_view(out@);
                let key = clone_exprs(&self.indexes[i].keys);
                out.push(key);
                assert(lists_view(out@) =~= before.push(exprs_view(key@)));
            }
            i += 1;
        }
        assert(self.indexes@.take(self.indexes.len() as int) =~= self.indexes@);
        out
    }
}

} // verus!
