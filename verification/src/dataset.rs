use vstd::prelude::*;
use crate::tree::split::{Split, MAX_BITS, has_bit};

verus! {

/// The starting splits of a data set: for each continuous feature `i`, the
/// continuous split of feature `i` at its number of thresholds; then, for
/// each categorical feature `j`, the categorical split holding all its
/// levels, of feature `j + 2 * n_con` (`n_con` continuous features).
pub fn build_init_splits(n_threshes: &Vec<usize>, cat_levels: &Vec<Vec<i16>>) -> (r: Vec<Split>)
    requires
        forall|i: int| 0 <= i < n_threshes.len() ==> 0 < #[trigger] n_threshes@[i] < i16::MAX,
        forall|j: int| 0 <= j < cat_levels.len() ==> #[trigger] cat_levels@[j].len() > 0,
        forall|j: int, k: int|
            0 <= j < cat_levels.len() && 0 <= k < cat_levels@[j].len() ==> 0 <= #[trigger] cat_levels@[j]@[k]
                < MAX_BITS,
        cat_levels.len() + 2 * n_threshes.len() <= u16::MAX + 1,
    ensures
        r.len() == n_threshes.len() + cat_levels.len(),
        forall|i: int|
            0 <= i < n_threshes.len() ==> #[trigger] r@[i] == Split::continuous_split(i as u16, n_threshes@[i] as i16),
        forall|j: int|
            0 <= j < cat_levels.len() ==> {
                let s = #[trigger] r@[n_threshes.len() + j];
                &&& s.feat() == j + 2 * n_threshes.len()
                &&& s.code() < 0
                &&& forall|c: i16| 0 <= c < MAX_BITS ==> (#[trigger] has_bit(s.code(), c as u16) <==> cat_levels@[j]@.contains(c))
            },
        forall|k: int| 0 <= k < r.len() ==> #[trigger] r@[k].wf(),
{
    let mut init_splits: Vec<Split> = Vec::new();
    let mut i: usize = 0;
    while i < n_threshes.len()
        invariant
            i <= n_threshes.len(),
            init_splits.len() == i,
            forall|i: int| 0 <= i < n_threshes.len() ==> 0 < #[trigger] n_threshes@[i] < i16::MAX,
            cat_levels.len() + 2 * n_threshes.len() <= u16::MAX + 1,
            forall|k: int| 0 <= k < i ==> #[trigger] init_splits@[k] == Split::continuous_split(k as u16, n_threshes@[k] as i16),
            forall|k: int| 0 <= k < i ==> #[trigger] init_splits@[k].wf(),
        decreases n_threshes.len() - i,
    {
        init_splits.push(Split::new_continuous(i as u16, n_threshes[i] as i16));
        i = i + 1;
    }
    let n_con = init_splits.len() as u16;
    let mut j: usize = 0;
    while j < cat_levels.len()
        invariant
            j <= cat_levels.len(),
            n_con == n_threshes.len(),
            init_splits.len() == n_threshes.len() + j,
            cat_levels.len() + 2 * n_threshes.len() <= u16::MAX + 1,
            forall|j: int| 0 <= j < cat_levels.len() ==> #[trigger] cat_levels@[j].len() > 0,
            forall|j: int, k: int|
                0 <= j < cat_levels.len() && 0 <= k < cat_levels@[j].len() ==> 0 <= #[trigger] cat_levels@[j]@[k]
                    < MAX_BITS,
            forall|k: int|
                0 <= k < n_threshes.len() ==> #[trigger] init_splits@[k] == Split::continuous_split(
                    k as u16,
                    n_threshes@[k] as i16,
                ),
            forall|q: int|
                0 <= q < j ==> {
                    let s = #[trigger] init_splits@[n_threshes.len() + q];
                    &&& s.feat() == q + 2 * n_threshes.len()
                    &&& s.code() < 0
                    &&& forall|c: i16| 0 <= c < MAX_BITS ==> (#[trigger] has_bit(s.code(), c as u16) <==> cat_levels@[q]@.contains(c))
                },
            forall|k: int| 0 <= k < init_splits.len() ==> #[trigger] init_splits@[k].wf(),
        decreases cat_levels.len() - j,
    {
        let feat = (j as u16) + n_con;
        let cats = cat_levels[j].clone();
        assert(cats@ == cat_levels@[j as int]@);
        init_splits.push(Split::new_categorical(feat + n_con, cats));
        j = j + 1;
    }
    init_splits
}

/// Why the header of a data file cannot be read as a data set.
#[derive(Clone, Copy, Debug, PartialEq, Eq, Structural)]
pub enum ColumnError {
    /// No column is named after the label.
    NoLabel,
    /// The label column does not hold numbers.
    LabelNotNumeric,
    /// Two columns share a name.
    DuplicateColumns,
}

/// Some name in `v` is `n`.
pub open spec fn has_name(v: Seq<String>, n: Seq<char>) -> bool {
    exists|i: int| 0 <= i < v.len() && #[trigger] v[i]@ == n
}

/// No name occurs twice in `v`.
pub open spec fn distinct_names(v: Seq<String>) -> bool {
    forall|a: int, b: int| #![trigger v[a], v[b]] 0 <= a < b < v.len() ==> v[a]@ != v[b]@
}

/// The first column named `label` holds numbers.
pub open spec fn label_is_numeric(colnames: Seq<String>, numeric: Seq<bool>, label: Seq<char>) -> bool {
    exists|i: int|
        {
            &&& 0 <= i < colnames.len()
            &&& #[trigger] colnames[i]@ == label
            &&& numeric[i]
            &&& forall|j: int| 0 <= j < i ==> colnames[j]@ != label
        }
}

/// The header names the label once, as a numeric column, and no column twice.
pub open spec fn columns_ok(colnames: Seq<String>, numeric: Seq<bool>, label: Seq<char>) -> bool {
    &&& has_name(colnames, label)
    &&& label_is_numeric(colnames, numeric, label)
    &&& distinct_names(colnames)
}

/// Some column named `n` does not hold numbers.
pub open spec fn is_text_column(colnames: Seq<String>, numeric: Seq<bool>, n: Seq<char>) -> bool {
    exists|i: int| 0 <= i < colnames.len() && #[trigger] colnames[i]@ == n && !numeric[i]
}

/// The feature `n` is used: it is one of `all_feats`, or, when that is
/// empty, one of the columns other than the label; and it is not excluded.
pub open spec fn is_selected(
    colnames: Seq<String>,
    label: Seq<char>,
    all_feats: Seq<String>,
    exclude: Seq<String>,
    n: Seq<char>,
) -> bool {
    &&& if all_feats.len() == 0 {
        has_name(colnames, n) && n != label
    } else {
        has_name(all_feats, n)
    }
    &&& !has_name(exclude, n)
}

/// The feature `n` counts as categorical: it is one of `cat_feats`, or,
/// when that is empty, a text column other than the label.
pub open spec fn cat_rule(
    colnames: Seq<String>,
    numeric: Seq<bool>,
    label: Seq<char>,
    cat_feats: Seq<String>,
    n: Seq<char>,
) -> bool {
    if cat_feats.len() == 0 {
        n != label && is_text_column(colnames, numeric, n)
    } else {
        has_name(cat_feats, n)
    }
}

/// The position of the first name in `v` equal to `n`.
fn name_index(v: &Vec<String>, n: &String) -> (r: Option<usize>)
    ensures
        match r {
            None => !has_name(v@, n@),
            Some(i) => {
                &&& i < v.len()
                &&& v@[i as int]@ == n@
                &&& forall|j: int| 0 <= j < i ==> v@[j]@ != n@
            },
        },
{
    let mut i: usize = 0;
    while i < v.len()
        invariant
            i <= v.len(),
            forall|j: int| 0 <= j < i ==> v@[j]@ != n@,
        decreases v.len() - i,
    {
        if v[i] == *n {
            return Some(i);
        }
        i = i + 1;
    }
    None
}

/// Whether some name in `v` equals `n`.
fn contains_name(v: &Vec<String>, n: &String) -> (r: bool)
    ensures
        r == has_name(v@, n@),
{
    name_index(v, n).is_some()
}

/// Whether no name occurs twice in `v`.
fn all_distinct(v: &Vec<String>) -> (r: bool)
    ensures
        r == distinct_names(v@),
{
    let mut b: usize = 0;
    while b < v.len()
        invariant
            b <= v.len(),
            forall|a: int, c: int| #![trigger v@[a], v@[c]] 0 <= a < c < b ==> v@[a]@ != v@[c]@,
        decreases v.len() - b,
    {
        let mut a: usize = 0;
        while a < b
            invariant
                a <= b < v.len(),
                forall|a2: int| 0 <= a2 < a ==> v@[a2]@ != v@[b as int]@,
            decreases b - a,
        {
            if v[a] == v[b] {
                return false;
            }
            a = a + 1;
        }
        b = b + 1;
    }
    true
}

/// Whether some column named `n` does not hold numbers.
fn text_column(colnames: &Vec<String>, numeric: &Vec<bool>, n: &String) -> (r: bool)
    requires
        colnames.len() == numeric.len(),
    ensures
        r == is_text_column(colnames@, numeric@, n@),
{
    let mut i: usize = 0;
    while i < colnames.len()
        invariant
            i <= colnames.len() == numeric.len(),
            forall|j: int| 0 <= j < i ==> !(colnames@[j]@ == n@ && !numeric@[j]),
        decreases colnames.len() - i,
    {
        if colnames[i] == *n && !numeric[i] {
            return true;
        }
        i = i + 1;
    }
    false
}

/// Checks the header of a data file: the column names `colnames`, with
/// whether each holds numbers, against the label column `label`.
pub fn check_columns(colnames: &Vec<String>, numeric: &Vec<bool>, label: &String) -> (r: Result<(), ColumnError>)
    requires
        colnames.len() == numeric.len(),
    ensures
        r == Err::<(), ColumnError>(ColumnError::NoLabel) <==> !has_name(colnames@, label@),
        r == Err::<(), ColumnError>(ColumnError::LabelNotNumeric) <==> has_name(colnames@, label@)
            && !label_is_numeric(colnames@, numeric@, label@),
        r == Err::<(), ColumnError>(ColumnError::DuplicateColumns) <==> has_name(colnames@, label@)
            && label_is_numeric(colnames@, numeric@, label@) && !distinct_names(colnames@),
        r is Ok <==> columns_ok(colnames@, numeric@, label@),
{
    match name_index(colnames, label) {
        None => Err(ColumnError::NoLabel),
        Some(i) => {
            if !numeric[i] {
                proof {
                    if label_is_numeric(colnames@, numeric@, label@) {
                        let k = choose|k: int|
                            {
                                &&& 0 <= k < colnames.len()
                                &&& #[trigger] colnames@[k]@ == label@
                                &&& numeric@[k]
                                &&& forall|j: int| 0 <= j < k ==> colnames@[j]@ != label@
                            };
                        assert(k != i);
                    }
                }
                Err(ColumnError::LabelNotNumeric)
            } else if !all_distinct(colnames) {
                Err(ColumnError::DuplicateColumns)
            } else {
                Ok(())
            }
        },
    }
}

/// The features of a data file and, among them, the categorical ones.
/// The features are `all_feats`, or, when that is empty, every column but
/// the label, less `exlude_feats`; the categorical ones are those also in
/// `cat_feats`, or, when that is empty, those that are text columns other
/// than the label.  Each name is listed once.
pub fn select_features(
    colnames: &Vec<String>,
    numeric: &Vec<bool>,
    label: &String,
    all_feats: &Vec<String>,
    cat_feats: &Vec<String>,
    exlude_feats: &Vec<String>,
) -> (r: (Vec<String>, Vec<String>))
    requires
        colnames.len() == numeric.len(),
        columns_ok(colnames@, numeric@, label@),
    ensures
        distinct_names(r.0@),
        distinct_names(r.1@),
        forall|n: Seq<char>|
            #![trigger has_name(r.0@, n)]
            has_name(r.0@, n) <==> is_selected(colnames@, label@, all_feats@, exlude_feats@, n),
        forall|n: Seq<char>|
            #![trigger has_name(r.1@, n)]
            has_name(r.1@, n) <==> is_selected(colnames@, label@, all_feats@, exlude_feats@, n) && cat_rule(
                colnames@,
                numeric@,
                label@,
                cat_feats@,
                n,
            ),
{
    let from_cols = all_feats.len() == 0;
    let base: &Vec<String> = if from_cols {
        colnames
    } else {
        all_feats
    };
    let mut feats: Vec<String> = Vec::new();
    let mut i: usize = 0;
    while i < base.len()
        invariant
            i <= base.len(),
            from_cols == (all_feats.len() == 0),
            base@ == if from_cols {
                colnames@
            } else {
                all_feats@
            },
            distinct_names(feats@),
            forall|n: Seq<char>|
                #![trigger has_name(feats@, n)]
                has_name(feats@, n) <==> {
                    &&& exists|j: int| 0 <= j < i && #[trigger] base@[j]@ == n
                    &&& from_cols ==> n != label@
                    &&& !has_name(exlude_feats@, n)
                },
        decreases base.len() - i,
    {
        let f = &base[i];
        let skip = (from_cols && *f == *label) || contains_name(exlude_feats, f) || contains_name(&feats, f);
        let ghost before = feats@;
        if !skip {
            feats.push(f.clone());
        }
        proof {
            assert forall|n: Seq<char>| #![trigger has_name(feats@, n)]
                has_name(feats@, n) <==> {
                    &&& exists|j: int| 0 <= j < i + 1 && #[trigger] base@[j]@ == n
                    &&& from_cols ==> n != label@
                    &&& !has_name(exlude_feats@, n)
                } by {
                if has_name(feats@, n) {
                    let k = choose|k: int| 0 <= k < feats@.len() && #[trigger] feats@[k]@ == n;
                    if k < before.len() {
                        assert(before[k]@ == n);
                        assert(has_name(before, n));
                    }
                }
                if exists|j: int| 0 <= j < i + 1 && #[trigger] base@[j]@ == n {
                    let j = choose|j: int| 0 <= j < i + 1 && #[trigger] base@[j]@ == n;
                    if j < i {
                        if (from_cols ==> n != label@) && !has_name(exlude_feats@, n) {
                            assert(has_name(before, n));
                            let k = choose|k: int| 0 <= k < before.len() && #[trigger] before[k]@ == n;
                            assert(feats@[k]@ == n);
                        }
                    } else if !skip {
                        assert(feats@[before.len() as int]@ == n);
                    } else if has_name(before, n) {
                        let k = choose|k: int| 0 <= k < before.len() && #[trigger] before[k]@ == n;
                        assert(feats@[k]@ == n);
                    }
                }
            }
        }
        i = i + 1;
    }
    let mut cats: Vec<String> = Vec::new();
    let mut j: usize = 0;
    while j < feats.len()
        invariant
            j <= feats.len(),
            colnames.len() == numeric.len(),
            distinct_names(feats@),
            distinct_names(cats@),
            forall|n: Seq<char>|
                #![trigger has_name(cats@, n)]
                has_name(cats@, n) <==> {
                    &&& exists|m: int| 0 <= m < j && #[trigger] feats@[m]@ == n
                    &&& cat_rule(colnames@, numeric@, label@, cat_feats@, n)
                },
        decreases feats.len() - j,
    {
        let f = &feats[j];
        let keep = if cat_feats.len() == 0 {
            !(*f == *label) && text_column(colnames, numeric, f)
        } else {
            contains_name(cat_feats, f)
        };
        let ghost before = cats@;
        if keep {
            proof {
                assert forall|a: int| 0 <= a < before.len() implies before[a]@ != f@ by {
                    assert(has_name(before, before[a]@));
                    let m = choose|m: int| 0 <= m < j && #[trigger] feats@[m]@ == before[a]@;
                }
            }
            cats.push(f.clone());
        }
        proof {
            assert forall|n: Seq<char>| #![trigger has_name(cats@, n)]
                has_name(cats@, n) <==> {
                    &&& exists|m: int| 0 <= m < j + 1 && #[trigger] feats@[m]@ == n
                    &&& cat_rule(colnames@, numeric@, label@, cat_feats@, n)
                } by {
                if has_name(cats@, n) {
                    let k = choose|k: int| 0 <= k < cats@.len() && #[trigger] cats@[k]@ == n;
                    if k < before.len() {
                        assert(before[k]@ == n);
                        assert(has_name(before, n));
                    }
                }
                if exists|m: int| 0 <= m < j + 1 && #[trigger] feats@[m]@ == n {
                    let m = choose|m: int| 0 <= m < j + 1 && #[trigger] feats@[m]@ == n;
                    if m < j {
                        if cat_rule(colnames@, numeric@, label@, cat_feats@, n) {
                            assert(has_name(before, n));
                            let k = choose|k: int| 0 <= k < before.len() && #[trigger] before[k]@ == n;
                            assert(cats@[k]@ == n);
                        }
                    } else if keep {
                        assert(cats@[before.len() as int]@ == n);
                    }
                }
            }
        }
        j = j + 1;
    }
    proof {
        assert forall|n: Seq<char>| #![trigger has_name(feats@, n)]
            has_name(feats@, n) <==> is_selected(colnames@, label@, all_feats@, exlude_feats@, n) by {
            if all_feats.len() == 0 {
                if has_name(colnames@, n) {
                    let k = choose|k: int| 0 <= k < colnames.len() && #[trigger] colnames@[k]@ == n;
                    assert(base@[k]@ == n);
                }
            } else if has_name(all_feats@, n) {
                let k = choose|k: int| 0 <= k < all_feats.len() && #[trigger] all_feats@[k]@ == n;
                assert(base@[k]@ == n);
            }
        }
        assert forall|n: Seq<char>| #![trigger has_name(cats@, n)]
            has_name(cats@, n) <==> is_selected(colnames@, label@, all_feats@, exlude_feats@, n) && cat_rule(
                colnames@,
                numeric@,
                label@,
                cat_feats@,
                n,
            ) by {
            if has_name(feats@, n) {
                let k = choose|k: int| 0 <= k < feats.len() && #[trigger] feats@[k]@ == n;
                assert(feats@[k]@ == n);
            }
        }
    }
    (feats, cats)
}

} // verus!
