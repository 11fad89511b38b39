//! The order in which the fields of a register are emitted.
use vstd::prelude::*;
use vstd::string::*;

use crate::config::{DerivableSorting, Sorting};
use crate::svd::Field;

verus! {

/// `a` comes before `b` in lexicographic order of characters.
pub open spec fn lex_lt(a: Seq<char>, b: Seq<char>) -> bool
    decreases a.len(),
{
    if a.len() == 0 {
        b.len() > 0
    } else if b.len() == 0 {
        false
    } else if a[0] != b[0] {
        a[0] < b[0]
    } else {
        lex_lt(a.drop_first(), b.drop_first())
    }
}

/// Field `a` sorts strictly before field `b` under `s`.
pub open spec fn key_lt(s: Sorting, a: Field, b: Field) -> bool {
    match s {
        Sorting::Offset => a.bit_offset < b.bit_offset,
        Sorting::OffsetReversed => a.bit_offset > b.bit_offset,
        Sorting::Name => lex_lt(a.name@, b.name@),
    }
}

/// Field number `a` sorts strictly before field number `b`.
pub open spec fn before(fields: Seq<Field>, s: Sorting, a: usize, b: usize) -> bool {
    key_lt(s, fields[a as int], fields[b as int])
}

/// `out` is `input` stably sorted under `s`; `perm` tells for each place of
/// `out` the place of `input` that it was taken from.
pub open spec fn arranged(
    fields: Seq<Field>,
    input: Seq<usize>,
    out: Seq<usize>,
    perm: Seq<int>,
    s: Sorting,
) -> bool {
    &&& out.len() == input.len()
    &&& perm.len() == input.len()
    &&& forall|k: int|
        0 <= k < out.len() ==> 0 <= #[trigger] perm[k] < input.len() && out[k] == input[perm[k]]
    &&& forall|k: int, l: int| #![trigger perm[k], perm[l]] 0 <= k < l < out.len() ==> perm[k] != perm[l]
    &&& forall|k: int, l: int| #![trigger out[k], out[l]]
        0 <= k < l < out.len() ==> !before(fields, s, out[l], out[k])
    &&& forall|k: int, l: int| #![trigger out[k], out[l]]
        0 <= k < l < out.len() && !before(fields, s, out[k], out[l]) ==> perm[k] < perm[l]
}

/// `out` is `input` ordered by `sorting`: unchanged where there is no key,
/// else sorted stably by the key.
pub open spec fn sorted_as(
    fields: Seq<Field>,
    input: Seq<usize>,
    out: Seq<usize>,
    sorting: Option<Sorting>,
) -> bool {
    match sorting {
        None => out == input,
        Some(s) => exists|perm: Seq<int>| arranged(fields, input, out, perm, s),
    }
}

/// The field derives from another one, or one of its sets of enumerated
/// values does.
pub open spec fn is_derived(f: Field) -> bool {
    f.derived_from is Some || exists|j: int|
        0 <= j < f.enumerated_values@.len() && (#[trigger] f.enumerated_values@[j]).derived_from is Some
}

/// The numbers below `n` of the fields that are derived (or not), in order.
pub open spec fn ids_where(fields: Seq<Field>, n: nat, derived: bool) -> Seq<usize>
    decreases n,
{
    if n == 0 {
        Seq::empty()
    } else if is_derived(fields[n - 1]) == derived {
        ids_where(fields, (n - 1) as nat, derived).push((n - 1) as usize)
    } else {
        ids_where(fields, (n - 1) as nat, derived)
    }
}

/// The numbers of `n` fields, in order.
pub open spec fn all_ids(n: nat) -> Seq<usize> {
    Seq::new(n, |i: int| i as usize)
}

/// `out` lists the numbers of `fields` in the order that `sorting` gives.
pub open spec fn field_order(fields: Seq<Field>, sorting: DerivableSorting, out: Seq<usize>) -> bool {
    match sorting {
        DerivableSorting::Unchanged(s) => sorted_as(fields, all_ids(fields.len()), out, s),
        DerivableSorting::DeriveLast(s) => exists|a: Seq<usize>, b: Seq<usize>|
            #![trigger a + b]
            out == a + b && sorted_as(fields, ids_where(fields, fields.len(), false), a, s)
                && sorted_as(fields, ids_where(fields, fields.len(), true), b, s),
    }
}

proof fn lemma_lex_irreflexive(a: Seq<char>)
    ensures
        !lex_lt(a, a),
    decreases a.len(),
{
    if a.len() > 0 {
        lemma_lex_irreflexive(a.drop_first());
    }
}

proof fn lemma_lex_transitive(a: Seq<char>, b: Seq<char>, c: Seq<char>)
    requires
        lex_lt(a, b),
        lex_lt(b, c),
    ensures
        lex_lt(a, c),
    decreases a.len(),
{
    if a.len() > 0 && b.len() > 0 && c.len() > 0 && a[0] == b[0] && b[0] == c[0] {
        lemma_lex_transitive(a.drop_first(), b.drop_first(), c.drop_first());
    }
}

proof fn lemma_lex_total(a: Seq<char>, b: Seq<char>)
    ensures
        lex_lt(a, b) || lex_lt(b, a) || a == b,
    decreases a.len(),
{
    if a.len() > 0 && b.len() > 0 && a[0] == b[0] {
        lemma_lex_total(a.drop_first(), b.drop_first());
        if a.drop_first() == b.drop_first() {
            assert(a =~= seq![a[0]] + a.drop_first());
            assert(b =~= seq![b[0]] + b.drop_first());
        }
    } else if a.len() == 0 && b.len() == 0 {
        assert(a =~= b);
    }
}

proof fn lemma_key_irreflexive(s: Sorting, a: Field)
    ensures
        !key_lt(s, a, a),
{
    lemma_lex_irreflexive(a.name@);
}

proof fn lemma_key_transitive(s: Sorting, a: Field, b: Field, c: Field)
    requires
        key_lt(s, a, b),
        key_lt(s, b, c),
    ensures
        key_lt(s, a, c),
{
    if s == Sorting::Name {
        lemma_lex_transitive(a.name@, b.name@, c.name@);
    }
}

/// `a < b <= c` gives `a < c`.
proof fn lemma_key_lt_le(s: Sorting, a: Field, b: Field, c: Field)
    requires
        key_lt(s, a, b),
        !key_lt(s, c, b),
    ensures
        key_lt(s, a, c),
{
    if s == Sorting::Name {
        lemma_lex_total(b.name@, c.name@);
        if lex_lt(b.name@, c.name@) {
            lemma_lex_transitive(a.name@, b.name@, c.name@);
        }
    }
}

proof fn lemma_insert_step(
    fields: Seq<Field>,
    input: Seq<usize>,
    i: int,
    out: Seq<usize>,
    perm: Seq<int>,
    s: Sorting,
    p: int,
)
    requires
        0 <= i < input.len(),
        arranged(fields, input.take(i), out, perm, s),
        0 <= p <= out.len(),
        forall|k: int| 0 <= k < p ==> !before(fields, s, input[i], #[trigger] out[k]),
        p < out.len() ==> before(fields, s, input[i], out[p]),
    ensures
        arranged(fields, input.take(i + 1), out.insert(p, input[i]), perm.insert(p, i), s),
{
    let x = input[i];
    let o2 = out.insert(p, x);
    let q = perm.insert(p, i);
    let pre = input.take(i);
    let pre2 = input.take(i + 1);
    assert forall|k: int| 0 <= k < o2.len() implies 0 <= #[trigger] q[k] < pre2.len() && o2[k]
        == pre2[q[k]] by {
        if k < p {
            assert(o2[k] == out[k] && q[k] == perm[k]);
        } else if k > p {
            assert(o2[k] == out[k - 1] && q[k] == perm[k - 1]);
        }
    }
    assert forall|k: int, l: int| #![trigger q[k], q[l]] 0 <= k < l < o2.len() implies q[k] != q[l] by {
        if k != p && l != p {
            let k1 = if k < p { k } else { k - 1 };
            let l1 = if l < p { l } else { l - 1 };
            assert(q[k] == perm[k1] && q[l] == perm[l1]);
            assert(perm[k1] != perm[l1]);
        } else if k == p {
            assert(q[l] == perm[l - 1]);
            assert(0 <= perm[l - 1] < i);
        } else {
            assert(q[k] == perm[k]);
            assert(0 <= perm[k] < i);
        }
    }
    assert forall|k: int, l: int| #![trigger o2[k], o2[l]] 0 <= k < l < o2.len() implies !before(
        fields,
        s,
        o2[l],
        o2[k],
    ) && (!before(fields, s, o2[k], o2[l]) ==> q[k] < q[l]) by {
        if k != p && l != p {
            let k1 = if k < p { k } else { k - 1 };
            let l1 = if l < p { l } else { l - 1 };
            assert(o2[k] == out[k1] && o2[l] == out[l1]);
            assert(q[k] == perm[k1] && q[l] == perm[l1]);
            assert(!before(fields, s, out[l1], out[k1]));
        } else if l == p {
            assert(o2[k] == out[k] && q[k] == perm[k]);
            assert(!before(fields, s, x, out[k]));
            assert(0 <= perm[k] < i);
        } else {
            // k == p < l: x sorts strictly before out[l - 1]
            assert(o2[l] == out[l - 1]);
            let fx = fields[x as int];
            let fp = fields[out[p] as int];
            let fl = fields[out[l - 1] as int];
            assert(key_lt(s, fx, fp));
            if l - 1 == p {
                assert(key_lt(s, fx, fl));
            } else {
                assert(!before(fields, s, out[l - 1], out[p]));
                lemma_key_lt_le(s, fx, fp, fl);
            }
            if key_lt(s, fl, fx) {
                lemma_key_transitive(s, fl, fx, fl);
                lemma_key_irreflexive(s, fl);
            }
        }
    }
}

/// Compares two strings in lexicographic order of characters.
fn str_lt(a: &str, b: &str) -> (r: bool)
    ensures
        r == lex_lt(a@, b@),
{
    let na = a.unicode_len();
    let nb = b.unicode_len();
    let mut i: usize = 0;
    assert(a@.skip(0) =~= a@ && b@.skip(0) =~= b@);
    while i < na && i < nb
        invariant
            na == a@.len(),
            nb == b@.len(),
            i <= na,
            i <= nb,
            lex_lt(a@, b@) == lex_lt(a@.skip(i as int), b@.skip(i as int)),
        decreases na - i,
    {
        let ca = a.get_char(i);
        let cb = b.get_char(i);
        assert(a@.skip(i as int)[0] == ca && b@.skip(i as int)[0] == cb);
        if ca != cb {
            return ca < cb;
        }
        assert(a@.skip(i as int).drop_first() =~= a@.skip(i + 1));
        assert(b@.skip(i as int).drop_first() =~= b@.skip(i + 1));
        i = i + 1;
    }
    i < nb
}

fn field_before(a: &Field, b: &Field, s: Sorting) -> (r: bool)
    ensures
        r == key_lt(s, *a, *b),
{
    match s {
        Sorting::Offset => a.bit_offset() < b.bit_offset(),
        Sorting::OffsetReversed => a.bit_offset() > b.bit_offset(),
        Sorting::Name => str_lt(a.name.as_str(), b.name.as_str()),
    }
}

/// Orders the field numbers `refs` by `sorting`: stably by the key, or
/// not at all where there is none.
pub fn sort_fields(fields: &Vec<Field>, refs: &mut Vec<usize>, sorting: Option<Sorting>)
    requires
        forall|k: int| 0 <= k < old(refs)@.len() ==> #[trigger] old(refs)@[k] < fields@.len(),
    ensures
        sorted_as(fields@, old(refs)@, final(refs)@, sorting),
        final(refs)@.len() == old(refs)@.len(),
        forall|k: int| 0 <= k < final(refs)@.len() ==> #[trigger] final(refs)@[k] < fields@.len(),
{
    match sorting {
        None => {},
        Some(s) => {
            let n = refs.len();
            let ghost input = refs@;
            let mut out: Vec<usize> = Vec::new();
            let ghost mut perm: Seq<int> = Seq::empty();
            let mut i: usize = 0;
            assert(input.take(0) =~= Seq::<usize>::empty());
            while i < n
                invariant
                    n == input.len(),
                    refs@ == input,
                    i <= n,
                    forall|k: int| 0 <= k < input.len() ==> #[trigger] input[k] < fields@.len(),
                    arranged(fields@, input.take(i as int), out@, perm, s),
                    forall|k: int| 0 <= k < out@.len() ==> #[trigger] out@[k] < fields@.len(),
                decreases n - i,
            {
                let x = refs[i];
                let mut p: usize = 0;
                while p < out.len() && !field_before(&fields[x], &fields[out[p]], s)
                    invariant
                        0 <= p <= out@.len(),
                        x == input[i as int],
                        x < fields@.len(),
                        out@.len() == i,
                        i < n,
                        forall|k: int| 0 <= k < input.len() ==> #[trigger] input[k] < fields@.len(),
                        arranged(fields@, input.take(i as int), out@, perm, s),
                        forall|k: int| 0 <= k < p ==> !before(fields@, s, x, #[trigger] out@[k]),
                        forall|k: int| 0 <= k < out@.len() ==> #[trigger] out@[k] < fields@.len(),
                    decreases out@.len() - p,
                {
                    p = p + 1;
                }
                let ghost old_out = out@;
                proof {
                    lemma_insert_step(fields@, input, i as int, out@, perm, s, p as int);
                    perm = perm.insert(p as int, i as int);
                }
                out.insert(p, x);
                assert forall|k: int| 0 <= k < out@.len() implies #[trigger] out@[k] < fields@.len() by {
                    if k > p {
                        assert(out@[k] == old_out[k - 1]);
                    } else if k < p {
                        assert(out@[k] == old_out[k]);
                    }
                }
                i = i + 1;
            }
            assert(input.take(n as int) =~= input);
            assert forall|k: int| 0 <= k < out@.len() implies #[trigger] out@[k] < fields@.len() by {
                assert(out@[k] == input[perm[k]]);
            }
            *refs = out;
        },
    }
}

fn field_is_derived(f: &Field) -> (r: bool)
    ensures
        r == is_derived(*f),
{
    if f.derived_from.is_some() {
        return true;
    }
    let m = f.enumerated_values.len();
    let mut j: usize = 0;
    while j < m
        invariant
            m == f.enumerated_values@.len(),
            j <= m,
            forall|jj: int| 0 <= jj < j ==> (#[trigger] f.enumerated_values@[jj]).derived_from is None,
        decreases m - j,
    {
        if f.enumerated_values[j].derived_from.is_some() {
            return true;
        }
        j = j + 1;
    }
    false
}

/// The field numbers of `v` in the order that `sorting` gives: with
/// `DeriveLast`, the fields that derive from nothing (themselves and through
/// their enumerated values) come first and the others after, each part
/// keeping its relative order but for the sort by the key.
pub fn sort_derived_fields(v: &Vec<Field>, sorting: DerivableSorting) -> (r: Vec<usize>)
    ensures
        field_order(v@, sorting, r@),
        r@.len() == v@.len(),
        forall|k: int| 0 <= k < r@.len() ==> #[trigger] r@[k] < v@.len(),
{
    let n = v.len();
    match sorting {
        DerivableSorting::Unchanged(s) => {
            let mut refs: Vec<usize> = Vec::new();
            let mut i: usize = 0;
            while i < n
                invariant
                    n == v@.len(),
                    i <= n,
                    refs@ == all_ids(i as nat),
                decreases n - i,
            {
                refs.push(i);
                i = i + 1;
                assert(refs@ =~= all_ids(i as nat));
            }
            sort_fields(v, &mut refs, s);
            refs
        },
        DerivableSorting::DeriveLast(s) => {
            let mut common: Vec<usize> = Vec::new();
            let mut derived: Vec<usize> = Vec::new();
            let mut i: usize = 0;
            while i < n
                invariant
                    n == v@.len(),
                    i <= n,
                    common@ == ids_where(v@, i as nat, false),
                    derived@ == ids_where(v@, i as nat, true),
                    forall|k: int| 0 <= k < common@.len() ==> #[trigger] common@[k] < i,
                    forall|k: int| 0 <= k < derived@.len() ==> #[trigger] derived@[k] < i,
                    common@.len() + derived@.len() == i,
                decreases n - i,
            {
                if field_is_derived(&v[i]) {
                    derived.push(i);
                } else {
                    common.push(i);
                }
                i = i + 1;
            }
            sort_fields(v, &mut common, s);
            sort_fields(v, &mut derived, s);
            let ghost a = common@;
            let ghost b = derived@;
            common.append(&mut derived);
            assert(common@ == a + b);
            assert forall|k: int| 0 <= k < common@.len() implies #[trigger] common@[k] < v@.len() by {
                if k >= a.len() {
                    assert(common@[k] == b[k - a.len()]);
                } else {
                    assert(common@[k] == a[k]);
                }
            }
            common
        },
    }
}

} // verus!
