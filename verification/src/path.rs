//! Dotted key paths: ordered, growable sequences of string fragments.

use std::collections::VecDeque;
use vstd::prelude::*;

verus! {

/// The fragments of a dotted path, joined with `'.'` between them.
pub open spec fn joined(p: Seq<Seq<char>>) -> Seq<char>
    decreases p.len(),
{
    if p.len() == 0 {
        Seq::empty()
    } else if p.len() == 1 {
        p[0]
    } else {
        joined(p.drop_last()) + seq!['.'] + p.last()
    }
}

/// An ordered sequence of key fragments naming one location in the result
/// tree, e.g. `["log", "file"]` for the dotted key `log.file`.
#[derive(Debug, Eq, Hash, Clone)]
pub struct Path(VecDeque<String>);

impl PartialEq for Path {
    /// Structural equality: same fragments in the same order.
    fn eq(&self, other: &Path) -> (r: bool)
        ensures
            r == (self@ == other@),
    {
        if self.0.len() != other.0.len() {
            proof {
                assert(self@.len() != other@.len());
            }
            return false;
        }
        let n = self.0.len();
        let mut i: usize = 0;
        while i < n
            invariant
                n == self.0@.len() == other.0@.len(),
                0 <= i <= n,
                forall|j: int| 0 <= j < i ==> self@[j] == other@[j],
            decreases n - i,
        {
            if !(self.0[i] == other.0[i]) {
                proof {
                    assert(self@[i as int] != other@[i as int]);
                }
                return false;
            }
            i = i + 1;
        }
        proof {
            assert(self@ =~= other@);
        }
        true
    }
}

impl vstd::std_specs::cmp::PartialEqSpecImpl for Path {
    open spec fn obeys_eq_spec() -> bool {
        true
    }

    open spec fn eq_spec(&self, other: &Path) -> bool {
        self@ == other@
    }
}

impl View for Path {
    type V = Seq<Seq<char>>;

    closed spec fn view(&self) -> Seq<Seq<char>> {
        self.0@.map_values(|s: String| s@)
    }
}

impl Path {
    /// An empty path.
    pub fn new() -> (r: Self)
        ensures
            r@ =~= Seq::<Seq<char>>::empty(),
    {
        Path(VecDeque::new())
    }

    /// Appends one fragment at the back.
    pub fn push(&mut self, fragment: String)
        ensures
            final(self)@ =~= old(self)@.push(fragment@),
    {
        self.0.push_back(fragment);
    }

    /// Removes and returns the front fragment, or `None` on an empty path.
    pub fn pop(&mut self) -> (r: Option<String>)
        ensures
            match r {
                Some(s) => old(self)@.len() > 0 && s@ == old(self)@[0] && final(self)@
                    =~= old(self)@.drop_first(),
                None => old(self)@.len() == 0 && final(self)@ =~= old(self)@,
            },
    {
        self.0.pop_front()
    }

    /// True when no fragment is left.
    pub fn last(&self) -> (r: bool)
        ensures
            r == (self@.len() == 0),
    {
        self.0.len() == 0
    }

    /// The number of fragments.
    pub fn len(&self) -> (r: usize)
        ensures
            r == self@.len(),
    {
        self.0.len()
    }

    /// A reference to the fragment at `i`.
    pub fn fragment(&self, i: usize) -> (r: &String)
        requires
            i < self@.len(),
        ensures
            r@ == self@[i as int],
    {
        &self.0[i]
    }

    /// The dotted rendering of the path, fragments joined with `'.'`.
    pub fn to_string(&self) -> (r: String)
        ensures
            r@ == joined(self@),
    {
        let mut acc = String::new();
        let ghost p = self@;
        let n = self.0.len();
        let mut i: usize = 0;
        while i < n
            invariant
                n == p.len(),
                0 <= i <= n,
                p =~= self@,
                acc@ == joined(p.take(i as int)),
            decreases n - i,
        {
            if i > 0 {
                acc.append(".");
                proof {
                    reveal_strlit(".");
                }
            }
            acc.append(self.0[i].as_str());
            proof {
                assert(p.take(i + 1 as int).drop_last() =~= p.take(i as int));
                assert(p.take(i + 1 as int).last() == p[i as int]);
                if i > 0 {
                    assert(acc@ == joined(p.take(i as int)) + seq!['.'] + p[i as int]);
                } else {
                    assert(p.take(1).len() == 1);
                    assert(acc@ =~= p[0]);
                }
            }
            i = i + 1;
        }
        proof {
            assert(p.take(n as int) =~= p);
        }
        acc
    }
}

impl From<VecDeque<String>> for Path {
    fn from(value: VecDeque<String>) -> (r: Self) {
        Path(value)
    }
}

impl vstd::std_specs::convert::FromSpecImpl<VecDeque<String>> for Path {
    open spec fn obeys_from_spec() -> bool {
        true
    }

    closed spec fn from_spec(value: VecDeque<String>) -> Self {
        Path(value)
    }
}

} // verus!
