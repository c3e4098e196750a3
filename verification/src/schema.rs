//! Binding the named columns of a table to positions in its rows.
//!
//! A table is a header row followed by data rows. Each file of a feed asks
//! for some columns by name: the required ones must be in the header, the
//! optional ones may be. The positions are found once for the table, and
//! every row is then read by position.

use crate::seqs::{first_where, lemma_first_where_is, lemma_first_where_none};
use crate::text::chars_of;
use vstd::prelude::*;

verus! {

/// Whether `c` is blank: a space, a tab, or one of the line and page breaks
/// of ASCII.
pub open spec fn is_blank(c: char) -> bool {
    c == ' ' || c == '\t' || c == '\n' || c == '\r' || c == '\x0b' || c == '\x0c'
}

/// How many blanks `s` starts with.
pub open spec fn blanks_before(s: Seq<char>) -> int
    decreases s.len(),
{
    if s.len() == 0 || !is_blank(s[0]) {
        0
    } else {
        1 + blanks_before(s.drop_first())
    }
}

/// How many blanks `s` ends with.
pub open spec fn blanks_after(s: Seq<char>) -> int
    decreases s.len(),
{
    if s.len() == 0 || !is_blank(s.last()) {
        0
    } else {
        1 + blanks_after(s.drop_last())
    }
}

/// `s` without the blanks at its two ends.
pub open spec fn trimmed(s: Seq<char>) -> Seq<char> {
    if blanks_before(s) == s.len() {
        Seq::<char>::empty()
    } else {
        s.subrange(blanks_before(s), s.len() - blanks_after(s))
    }
}

/// The blanks at the start end where the first other character stands.
pub proof fn lemma_blanks_before(s: Seq<char>, a: int)
    requires
        0 <= a <= s.len(),
        forall|i: int| 0 <= i < a ==> is_blank(#[trigger] s[i]),
        a < s.len() ==> !is_blank(s[a]),
    ensures
        blanks_before(s) == a,
    decreases s.len(),
{
    if s.len() == 0 || !is_blank(s[0]) {
    } else {
        let t = s.drop_first();
        assert forall|i: int| 0 <= i < a - 1 implies is_blank(#[trigger] t[i]) by {
            assert(t[i] == s[i + 1]);
        }
        lemma_blanks_before(t, a - 1);
    }
}

/// The blanks at the end start after the last other character.
pub proof fn lemma_blanks_after(s: Seq<char>, b: int)
    requires
        0 <= b <= s.len(),
        forall|i: int| b <= i < s.len() ==> is_blank(#[trigger] s[i]),
        b > 0 ==> !is_blank(s[b - 1]),
    ensures
        blanks_after(s) == s.len() - b,
    decreases s.len(),
{
    if s.len() == 0 || !is_blank(s.last()) {
    } else {
        let t = s.drop_last();
        assert forall|i: int| b <= i < t.len() implies is_blank(#[trigger] t[i]) by {
            assert(t[i] == s[i]);
        }
        lemma_blanks_after(t, b);
    }
}

/// Whether `c` is blank.
fn blank(c: char) -> (r: bool)
    ensures
        r == is_blank(c),
{
    c == ' ' || c == '\t' || c == '\n' || c == '\r' || c == '\x0b' || c == '\x0c'
}

/// Whether the header cell `cell`, without the blanks around it, reads
/// `name`.
pub fn names_column(cell: &str, name: &str) -> (r: bool)
    ensures
        r == (trimmed(cell@) == name@),
{
    let v = chars_of(cell);
    let w = chars_of(name);
    let n: usize = v.len();
    let mut a: usize = 0;
    while a < n && blank(v[a])
        invariant
            a <= n == v.len(),
            forall|i: int| 0 <= i < a ==> is_blank(#[trigger] v@[i]),
        decreases n - a,
    {
        a = a + 1;
    }
    proof {
        lemma_blanks_before(v@, a as int);
    }
    if a == n {
        assert(w.len() == 0 ==> name@ =~= Seq::<char>::empty());
        return w.len() == 0;
    }
    let mut b: usize = n;
    while b > a && blank(v[b - 1])
        invariant
            a <= b <= n == v.len(),
            forall|i: int| b <= i < n ==> is_blank(#[trigger] v@[i]),
        decreases b,
    {
        b = b - 1;
    }
    proof {
        lemma_blanks_after(v@, b as int);
    }
    let ghost t = v@.subrange(a as int, b as int);
    assert(t == trimmed(cell@));
    if b - a != w.len() {
        return false;
    }
    let mut i: usize = 0;
    while i < w.len()
        invariant
            a <= b <= v.len(),
            b - a == w.len(),
            i <= w.len(),
            t == v@.subrange(a as int, b as int),
            t == trimmed(cell@),
            w@ == name@,
            forall|j: int| 0 <= j < i ==> t[j] == w@[j],
        decreases w.len() - i,
    {
        if v[a + i] != w[i] {
            assert(t[i as int] == v@[a + i]);
            assert(t != w@);
            return false;
        }
        i = i + 1;
    }
    assert(t =~= w@);
    true
}

/// The position of the column called `name`: that of the first header cell
/// that reads so once trimmed.
pub open spec fn column_of(header: Seq<Seq<char>>, name: Seq<char>) -> Option<int> {
    first_where(header, |cell: Seq<char>| trimmed(cell) == name)
}

/// Finds the column called `name`.
pub fn find_column(header: &Vec<String>, name: &str) -> (r: Option<usize>)
    ensures
        r.is_some() == column_of(header.deep_view(), name@).is_some(),
        r.is_some() ==> r->0 == column_of(header.deep_view(), name@)->0,
        r.is_some() ==> r->0 < header.len(),
{
    let ghost cells = header.deep_view();
    let ghost p = |cell: Seq<char>| trimmed(cell) == name@;
    let mut i: usize = 0;
    while i < header.len()
        invariant
            i <= header.len(),
            cells == header.deep_view(),
            p == (|cell: Seq<char>| trimmed(cell) == name@),
            forall|j: int| 0 <= j < i ==> !p(#[trigger] cells[j]),
        decreases header.len() - i,
    {
        assert(cells[i as int] == header@[i as int]@);
        if names_column(header[i].as_str(), name) {
            proof {
                lemma_first_where_is(cells, p, i as int);
            }
            return Some(i);
        }
        i = i + 1;
    }
    proof {
        lemma_first_where_none(cells, p);
    }
    None
}

/// The texts of a list of names.
pub open spec fn texts(names: Seq<&str>) -> Seq<Seq<char>> {
    Seq::new(names.len(), |k: int| names[k]@)
}

/// Where the columns that a file asks for stand in its rows.
#[derive(Debug, PartialEq, Eq)]
pub struct Columns {
    /// For each required column, in the order the file lists them, its
    /// position.
    pub required: Vec<usize>,
    /// For each optional column, in the order the file lists them, its
    /// position where the header has it.
    pub optional: Vec<Option<usize>>,
}

/// The positions of a [`Columns`] as mathematical integers.
pub struct ColumnMap {
    pub required: Seq<int>,
    pub optional: Seq<Option<int>>,
}

impl View for Columns {
    type V = ColumnMap;

    open spec fn view(&self) -> ColumnMap {
        ColumnMap {
            required: Seq::new(self.required@.len(), |k: int| self.required@[k] as int),
            optional: Seq::new(
                self.optional@.len(),
                |k: int|
                    match self.optional@[k] {
                        Some(i) => Some(i as int),
                        None => None,
                    },
            ),
        }
    }
}

impl ColumnMap {
    /// Whether every position lies within a row of `width` cells.
    pub open spec fn within(self, width: int) -> bool {
        &&& forall|k: int| 0 <= k < self.required.len() ==> 0 <= #[trigger] self.required[k] < width
        &&& forall|k: int|
            0 <= k < self.optional.len() ==> match #[trigger] self.optional[k] {
                Some(i) => 0 <= i < width,
                None => true,
            }
    }
}

/// The first of the `required` columns that `header` lacks.
pub open spec fn first_missing(header: Seq<Seq<char>>, required: Seq<Seq<char>>) -> Option<int> {
    first_where(required, |name: Seq<char>| column_of(header, name) is None)
}

/// The positions in `header` of the columns asked for. It is meant for a
/// header that lacks none of the required ones.
pub open spec fn columns_of(
    header: Seq<Seq<char>>,
    required: Seq<Seq<char>>,
    optional: Seq<Seq<char>>,
) -> ColumnMap {
    ColumnMap {
        required: Seq::new(required.len(), |k: int| column_of(header, required[k]).unwrap()),
        optional: Seq::new(optional.len(), |k: int| column_of(header, optional[k])),
    }
}

/// Binds the columns that a file asks for to their positions in `header`.
/// Fails with the index, within `required`, of the first required column
/// that the header lacks.
pub fn bind_columns(header: &Vec<String>, required: &Vec<&str>, optional: &Vec<&str>) -> (r: Result<
    Columns,
    usize,
>)
    ensures
        match r {
            Ok(cols) => {
                &&& first_missing(header.deep_view(), texts(required@)) is None
                &&& cols@ == columns_of(header.deep_view(), texts(required@), texts(optional@))
                &&& cols@.within(header.len() as int)
            },
            Err(k) => first_missing(header.deep_view(), texts(required@)) == Some(k as int),
        },
{
    let ghost cells = header.deep_view();
    let ghost wanted = texts(required@);
    let ghost lacks = |name: Seq<char>| column_of(cells, name) is None;
    let mut req: Vec<usize> = Vec::new();
    let mut k: usize = 0;
    while k < required.len()
        invariant
            k <= required.len(),
            cells == header.deep_view(),
            wanted == texts(required@),
            lacks == (|name: Seq<char>| column_of(cells, name) is None),
            req@.len() == k,
            forall|j: int| 0 <= j < k ==> !lacks(#[trigger] wanted[j]),
            forall|j: int|
                0 <= j < k ==> (#[trigger] req@[j]) as int == column_of(cells, wanted[j]).unwrap()
                    && req@[j] < header.len(),
        decreases required.len() - k,
    {
        match find_column(header, required[k]) {
            Some(i) => {
                req.push(i);
            },
            None => {
                proof {
                    lemma_first_where_is(wanted, lacks, k as int);
                }
                return Err(k);
            },
        }
        k = k + 1;
    }
    proof {
        lemma_first_where_none(wanted, lacks);
    }
    let ghost asked = texts(optional@);
    let mut opt: Vec<Option<usize>> = Vec::new();
    let mut k: usize = 0;
    while k < optional.len()
        invariant
            k <= optional.len(),
            cells == header.deep_view(),
            asked == texts(optional@),
            opt@.len() == k,
            forall|j: int|
                0 <= j < k ==> match #[trigger] opt@[j] {
                    Some(i) => column_of(cells, asked[j]) == Some(i as int) && i < header.len(),
                    None => column_of(cells, asked[j]) is None,
                },
        decreases optional.len() - k,
    {
        let found = find_column(header, optional[k]);
        opt.push(found);
        k = k + 1;
    }
    let cols = Columns { required: req, optional: opt };
    proof {
        let want = columns_of(cells, wanted, asked);
        assert(cols@.required =~= want.required);
        assert(cols@.optional =~= want.optional);
    }
    Ok(cols)
}

} // verus!
