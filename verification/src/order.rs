//! The order of strings: character by character, a string before every
//! string that it begins. It is the order in which the standard library
//! sorts strings.

use vstd::prelude::*;

verus! {

/// Whether `a` and `b` agree on their first `k` characters.
pub open spec fn agree_upto(a: Seq<char>, b: Seq<char>, k: int) -> bool {
    &&& 0 <= k <= a.len()
    &&& k <= b.len()
    &&& forall|i: int| 0 <= i < k ==> a[i] == b[i]
}

/// Whether `a` comes before `b` at position `k`: up to there they agree,
/// and there `a` ends or has the smaller character.
pub open spec fn before_at(a: Seq<char>, b: Seq<char>, k: int) -> bool {
    &&& agree_upto(a, b, k)
    &&& k < b.len()
    &&& (k == a.len() || a[k] < b[k])
}

/// Whether `a` comes before `b` in the order of strings: character by
/// character, a string before every string that it begins.
pub open spec fn comes_before(a: Seq<char>, b: Seq<char>) -> bool {
    exists|k: int| before_at(a, b, k)
}

/// Whether the names come in rising order, none twice.
pub open spec fn strictly_rising(names: Seq<Seq<char>>) -> bool {
    forall|i: int, j: int| 0 <= i < j < names.len() ==> comes_before(names[i], names[j])
}

/// Where two different strings part.
pub proof fn lemma_parting(a: Seq<char>, b: Seq<char>) -> (k: int)
    requires
        a != b,
    ensures
        agree_upto(a, b, k),
        k == a.len() || k == b.len() || a[k] != b[k],
        !(k == a.len() && k == b.len()),
    decreases a.len(),
{
    if a.len() == 0 || b.len() == 0 {
        if a.len() == 0 && b.len() == 0 {
            assert(a =~= b);
        }
        0
    } else if a[0] != b[0] {
        0
    } else {
        if a.drop_first() == b.drop_first() {
            assert(a =~= seq![a[0]] + a.drop_first());
            assert(b =~= seq![b[0]] + b.drop_first());
        }
        let k = lemma_parting(a.drop_first(), b.drop_first());
        assert forall|i: int| 0 <= i < k + 1 implies a[i] == b[i] by {
            if i > 0 {
                assert(a.drop_first()[i - 1] == b.drop_first()[i - 1]);
            }
        }
        k + 1
    }
}

/// Where one string comes before another, they part at one place only.
pub proof fn lemma_parting_unique(a: Seq<char>, b: Seq<char>, k: int, m: int)
    requires
        agree_upto(a, b, k),
        agree_upto(a, b, m),
        k == a.len() || k == b.len() || a[k] != b[k],
        m == a.len() || m == b.len() || a[m] != b[m],
    ensures
        k == m,
{
}

/// Of two different strings one comes before the other.
pub proof fn lemma_order_total(a: Seq<char>, b: Seq<char>)
    ensures
        a == b || comes_before(a, b) || comes_before(b, a),
{
    if a != b {
        let k = lemma_parting(a, b);
        assert(agree_upto(b, a, k));
        if k == a.len() {
            assert(before_at(a, b, k));
        } else if k == b.len() {
            assert(before_at(b, a, k));
        } else if a[k] < b[k] {
            assert(before_at(a, b, k));
        } else {
            assert(before_at(b, a, k));
        }
    }
}

/// No string comes before itself, and of two strings only one comes
/// before the other.
pub proof fn lemma_order_strict(a: Seq<char>, b: Seq<char>)
    ensures
        !(comes_before(a, b) && comes_before(b, a)),
        comes_before(a, b) ==> a != b,
{
    if comes_before(a, b) && comes_before(b, a) {
        let k = choose|k: int| before_at(a, b, k);
        let m = choose|m: int| before_at(b, a, m);
        assert(agree_upto(a, b, m));
        lemma_parting_unique(a, b, k, m);
    }
}

/// What comes before a string comes before all that the string comes
/// before.
pub proof fn lemma_order_transitive(a: Seq<char>, b: Seq<char>, c: Seq<char>)
    requires
        comes_before(a, b),
        comes_before(b, c),
    ensures
        comes_before(a, c),
{
    let k = choose|k: int| before_at(a, b, k);
    let m = choose|m: int| before_at(b, c, m);
    if k <= m {
        assert(before_at(a, c, k));
    } else {
        assert(before_at(a, c, m));
    }
}

/// How two strings stand to one another in the order of strings.
#[derive(Clone, Copy, Debug, PartialEq, Eq, Structural)]
pub enum Standing {
    /// The first comes before the second.
    Before,
    /// They are the same.
    Same,
    /// The first comes after the second.
    After,
}

/// How `a` stands to `b`.
pub fn standing(a: &Vec<char>, b: &Vec<char>) -> (s: Standing)
    ensures
        s == Standing::Before <==> comes_before(a@, b@),
        s == Standing::Same <==> a@ == b@,
        s == Standing::After <==> comes_before(b@, a@),
{
    let la = a.len();
    let lb = b.len();
    let mut k: usize = 0;
    proof {
        lemma_order_strict(a@, b@);
        lemma_order_strict(b@, a@);
    }
    while k < la && k < lb
        invariant
            k <= la,
            k <= lb,
            la == a.len(),
            lb == b.len(),
            agree_upto(a@, b@, k as int),
        decreases la - k,
    {
        if a[k] < b[k] {
            assert(before_at(a@, b@, k as int));
            return Standing::Before;
        }
        if a[k] > b[k] {
            assert(agree_upto(b@, a@, k as int));
            assert(before_at(b@, a@, k as int));
            return Standing::After;
        }
        k = k + 1;
    }
    if la < lb {
        assert(before_at(a@, b@, k as int));
        Standing::Before
    } else if lb < la {
        assert(agree_upto(b@, a@, k as int));
        assert(before_at(b@, a@, k as int));
        Standing::After
    } else {
        assert(a@ =~= b@);
        Standing::Same
    }
}

} // verus!
