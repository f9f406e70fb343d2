//! The column resolver: header names to column indices, and
//! include/exclude specifications to ordered lists of valid column names.

use vstd::prelude::*;
use vstd::seq_lib::*;

verus! {

/// The texts of a sequence of strings.
pub open spec fn views_of(s: Seq<String>) -> Seq<Seq<char>> {
    s.map_values(|x: String| x@)
}

/// The candidate list of a selection: the given categories when any were
/// given, otherwise every header, in header order.
pub open spec fn candidate_views(categories: Option<Vec<String>>, hs: Seq<String>) -> Seq<
    Seq<char>,
> {
    if categories is Some && categories->Some_0@.len() > 0 {
        views_of(categories->Some_0@)
    } else {
        views_of(hs)
    }
}

/// The texts of an optional exclusion list; absent means none.
pub open spec fn exclude_views(exclude: Option<Vec<String>>) -> Seq<Seq<char>> {
    if exclude is Some {
        views_of(exclude->Some_0@)
    } else {
        Seq::empty()
    }
}

/// The candidates that survive a selection: those that name an actual
/// header and are not excluded, in candidate order.
pub open spec fn selected(cands: Seq<Seq<char>>, hs: Seq<Seq<char>>, ex: Seq<Seq<char>>) -> Seq<
    Seq<char>,
> {
    cands.filter(|c: Seq<char>| hs.contains(c) && !ex.contains(c))
}

/// The first position at which `name` stands in `hs` (meaningful only
/// when it stands somewhere).
pub open spec fn first_index_of(hs: Seq<Seq<char>>, name: Seq<char>) -> int
    decreases hs.len(),
{
    if hs.len() == 0 {
        0
    } else if hs[0] == name {
        0
    } else {
        1 + first_index_of(hs.drop_first(), name)
    }
}

/// A position holding `name`, with none before it, is the first.
pub proof fn lemma_first_index_of(hs: Seq<Seq<char>>, name: Seq<char>, i: int)
    requires
        0 <= i < hs.len(),
        hs[i] == name,
        forall|j: int| 0 <= j < i ==> hs[j] != name,
    ensures
        first_index_of(hs, name) == i,
    decreases i,
{
    if i == 0 {
    } else {
        assert(hs[0] != name);
        assert(hs.drop_first()[i - 1] == hs[i]);
        lemma_first_index_of(hs.drop_first(), name, i - 1);
    }
}

/// Whether two strings hold the same text.
pub fn str_eq(a: &String, b: &String) -> (r: bool)
    ensures
        r == (a@ == b@),
{
    a.eq(b)
}

/// The position of the first element of `arr` whose text equals `elem`'s,
/// if any: duplicate names resolve to their first occurrence.
pub fn find_index(arr: &[String], elem: &String) -> (r: Option<usize>)
    ensures
        match r {
            Some(i) => 0 <= i < arr@.len() && arr@[i as int]@ == elem@ && (forall|j: int|
                0 <= j < i ==> arr@[j]@ != elem@),
            None => forall|j: int| 0 <= j < arr@.len() ==> arr@[j]@ != elem@,
        },
{
    let mut i: usize = 0;
    while i < arr.len()
        invariant
            i <= arr@.len(),
            forall|j: int| 0 <= j < i ==> arr@[j]@ != elem@,
        decreases arr@.len() - i,
    {
        if str_eq(&arr[i], elem) {
            return Some(i);
        }
        i += 1;
    }
    None
}

/// Whether some element of `arr` has the text of `x`.
pub fn contains_str(arr: &[String], x: &String) -> (r: bool)
    ensures
        r == views_of(arr@).contains(x@),
{
    let mut i: usize = 0;
    while i < arr.len()
        invariant
            i <= arr@.len(),
            forall|j: int| 0 <= j < i ==> arr@[j]@ != x@,
        decreases arr@.len() - i,
    {
        if str_eq(&arr[i], x) {
            assert(views_of(arr@)[i as int] == x@);
            return true;
        }
        i += 1;
    }
    assert(forall|j: int| 0 <= j < views_of(arr@).len() ==> views_of(arr@)[j] != x@);
    false
}

/// Resolves a category name to its first matching column index,
/// case-insensitively: the name is lowercased and matched exactly against
/// the headers in order.
pub fn resolve_category(headers: &Vec<String>, name: &String) -> (r: Option<usize>)
    ensures
        match r {
            Some(i) => {
                &&& i < headers@.len()
                &&& views_of(headers@).contains(crate::num::lower_of(name@))
                &&& i as int == first_index_of(views_of(headers@), crate::num::lower_of(name@))
            },
            None => !views_of(headers@).contains(crate::num::lower_of(name@)),
        },
{
    let key = crate::num::lowercase(name.as_str());
    let found = find_index(headers.as_slice(), &key);
    match found {
        Some(i) => {
            proof {
                lemma_first_index_of(views_of(headers@), key@, i as int);
                assert(views_of(headers@)[i as int] == headers@[i as int]@);
            }
            Some(i)
        },
        None => {
            proof {
                let hv = views_of(headers@);
                if hv.contains(key@) {
                    let k = choose|k: int| 0 <= k < hv.len() && hv[k] == key@;
                    assert(headers@[k]@ == key@);
                }
            }
            None
        },
    }
}

/// Clones a list of names.
fn clone_names(arr: &[String]) -> (r: Vec<String>)
    ensures
        r@ =~= arr@,
{
    let mut out: Vec<String> = Vec::new();
    let mut i: usize = 0;
    while i < arr.len()
        invariant
            i <= arr@.len(),
            out@ =~= arr@.take(i as int),
        decreases arr@.len() - i,
    {
        out.push(arr[i].clone());
        assert(out@ =~= arr@.take(i + 1));
        i += 1;
    }
    out
}

pub proof fn lemma_filter_take_step(s: Seq<Seq<char>>, i: int, pred: spec_fn(Seq<char>) -> bool)
    requires
        0 <= i < s.len(),
    ensures
        s.take(i + 1).filter(pred) == (if pred(s[i]) {
            s.take(i).filter(pred).push(s[i])
        } else {
            s.take(i).filter(pred)
        }),
{
    reveal_with_fuel(Seq::<_>::filter, 2);
    assert(s.take(i + 1).drop_last() =~= s.take(i));
    assert(s.take(i + 1).last() == s[i]);
}

/// Resolves a category selection: keeps, in order, each candidate that is
/// an actual header name and is not excluded. When no categories are
/// given, or an empty list is, every header stands candidate.
pub fn get_valid_categories(
    categories: Option<Vec<String>>,
    exclude: Option<Vec<String>>,
    headers: &[String],
) -> (r: Vec<String>)
    ensures
        views_of(r@) == selected(
            candidate_views(categories, headers@),
            views_of(headers@),
            exclude_views(exclude),
        ),
{
    let ghost candv = candidate_views(categories, headers@);
    let ghost hsv = views_of(headers@);
    let ghost exv = exclude_views(exclude);
    let ex: Vec<String> = match exclude {
        Some(e) => e,
        None => Vec::new(),
    };
    assert(views_of(ex@) =~~= exv);
    let cands: Vec<String> = match categories {
        Some(c) => {
            if c.len() > 0 {
                c
            } else {
                clone_names(headers)
            }
        },
        None => clone_names(headers),
    };
    assert(views_of(cands@) =~~= candv);
    let ghost pred = |c: Seq<char>| hsv.contains(c) && !exv.contains(c);
    let mut out: Vec<String> = Vec::new();
    let mut i: usize = 0;
    while i < cands.len()
        invariant
            i <= cands@.len(),
            views_of(cands@) == candv,
            views_of(ex@) == exv,
            hsv == views_of(headers@),
            pred == (|c: Seq<char>| hsv.contains(c) && !exv.contains(c)),
            views_of(out@) == candv.take(i as int).filter(pred),
        decreases cands@.len() - i,
    {
        let keep = contains_str(headers, &cands[i]) && !contains_str(ex.as_slice(), &cands[i]);
        proof {
            lemma_filter_take_step(candv, i as int, pred);
            assert(candv[i as int] == cands@[i as int]@);
            assert(pred(candv[i as int]) == keep);
        }
        if keep {
            out.push(cands[i].clone());
        }
        assert(views_of(out@) =~~= candv.take(i + 1).filter(pred));
        i += 1;
    }
    assert(candv.take(cands@.len() as int) =~= candv);
    out
}

} // verus!
