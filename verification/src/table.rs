//! Reading the rows of a table into records.
//!
//! A record type says which columns its file has, how one row becomes a
//! record, and which field is its key. Two readers are built on that: one
//! for files in which every key occurs once, and one for files whose rows
//! are gathered by key.

use crate::schema::{bind_columns, columns_of, first_missing, texts, ColumnMap, Columns};
use crate::seqs::{first_where, lemma_first_where, lemma_first_where_is, lemma_first_where_none};
use crate::text::is_text;
use vstd::prelude::*;

verus! {

/// The files of a feed, in the order in which they are read.
#[derive(Clone, Copy, Debug, PartialEq, Eq, Structural)]
pub enum FileKind {
    Agency,
    Stops,
    Routes,
    Trips,
    StopTimes,
    Calendar,
    CalendarDates,
}

/// A column of a file: its index in the file's list of required columns, or
/// in its list of optional ones.
#[derive(Clone, Copy, Debug, PartialEq, Eq, Structural)]
pub enum Column {
    Required(usize),
    Optional(usize),
}

/// Why a row holds no record.
#[derive(Clone, Copy, Debug, PartialEq, Eq, Structural)]
pub enum RowFault {
    /// The row has no cell for one of the columns that the file binds.
    Short,
    /// The cell of this column does not hold a value of its kind.
    Cell(Column),
}

impl RowFault {
    /// The fault as that of the row at `position` of the table of `file`.
    pub open spec fn located(self, file: FileKind, position: usize) -> LoadError {
        match self {
            RowFault::Short => LoadError::ShortRow(file, position),
            RowFault::Cell(column) => LoadError::BadCell(file, position, column),
        }
    }

    /// The fault as that of the row at `position` of the table of `file`.
    pub fn at(self, file: FileKind, position: usize) -> (e: LoadError)
        ensures
            e == self.located(file, position),
    {
        match self {
            RowFault::Short => LoadError::ShortRow(file, position),
            RowFault::Cell(column) => LoadError::BadCell(file, position, column),
        }
    }
}

/// Why a feed could not be loaded. A position counts the rows of the file's
/// table from its header, which is row 0.
#[derive(Clone, Copy, Debug, PartialEq, Eq, Structural)]
pub enum LoadError {
    /// The file is not there.
    MissingFile(FileKind),
    /// The file's text could not be split into rows.
    Unreadable(FileKind),
    /// The file has no header row.
    NoHeader(FileKind),
    /// The header lacks a required column: the one at this index in the
    /// file's list of required columns.
    MissingColumn(FileKind, usize),
    /// The row at this position has no cell for one of the columns that the
    /// file binds.
    ShortRow(FileKind, usize),
    /// In the row at this position, the cell of this column does not hold a
    /// value of its kind.
    BadCell(FileKind, usize, Column),
    /// The row at this position repeats the key of an earlier row.
    DuplicateId(FileKind, usize),
}

/// A cell of a required column.
pub open spec fn required_cell(cols: ColumnMap, row: Seq<Seq<char>>, k: int) -> Seq<char> {
    row[cols.required[k]]
}

/// A cell of an optional column, where the header has the column.
pub open spec fn optional_cell(cols: ColumnMap, row: Seq<Seq<char>>, k: int) -> Option<Seq<char>> {
    match cols.optional[k] {
        Some(i) => Some(row[i]),
        None => None,
    }
}

/// A cell of an optional column, or `default` where the header lacks the
/// column.
pub open spec fn cell_or(cols: ColumnMap, row: Seq<Seq<char>>, k: int, default: Seq<char>) -> Seq<
    char,
> {
    match cols.optional[k] {
        Some(i) => row[i],
        None => default,
    }
}

/// The value of an optional cell: none where the column is absent, and a
/// failure where the cell is there and does not parse.
pub open spec fn optional_value<T>(cell: Option<Seq<char>>, parse: spec_fn(Seq<char>) -> Option<T>) -> Option<
    Option<T>,
> {
    match cell {
        None => Some(None),
        Some(s) => match parse(s) {
            Some(v) => Some(Some(v)),
            None => None,
        },
    }
}

/// Whether `row` has a cell for every column that `cols` binds.
pub fn covers(cols: &Columns, row: &Vec<String>) -> (r: bool)
    ensures
        r == cols@.within(row.len() as int),
{
    let n: usize = row.len();
    let mut k: usize = 0;
    while k < cols.required.len()
        invariant
            k <= cols.required.len(),
            n == row.len(),
            forall|j: int| 0 <= j < k ==> 0 <= #[trigger] cols@.required[j] < n,
        decreases cols.required.len() - k,
    {
        if cols.required[k] >= n {
            assert(!(cols@.required[k as int] < n));
            return false;
        }
        k = k + 1;
    }
    let mut k: usize = 0;
    while k < cols.optional.len()
        invariant
            k <= cols.optional.len(),
            n == row.len(),
            forall|j: int| 0 <= j < cols.required.len() ==> 0 <= #[trigger] cols@.required[j] < n,
            forall|j: int|
                0 <= j < k ==> match #[trigger] cols@.optional[j] {
                    Some(i) => 0 <= i < n,
                    None => true,
                },
        decreases cols.optional.len() - k,
    {
        match cols.optional[k] {
            Some(i) => {
                if i >= n {
                    assert(cols@.optional[k as int] == Some(i as int));
                    return false;
                }
            },
            None => {},
        }
        k = k + 1;
    }
    true
}

/// The cell of `row` in the `k`-th required column.
pub fn required<'a>(cols: &Columns, row: &'a Vec<String>, k: usize) -> (r: &'a str)
    requires
        k < cols.required.len(),
        cols@.within(row.len() as int),
    ensures
        r@ == required_cell(cols@, row.deep_view(), k as int),
{
    assert(0 <= cols@.required[k as int] < row.len());
    row[cols.required[k]].as_str()
}

/// The cell of `row` in the `k`-th optional column, where the header has
/// the column.
pub fn optional<'a>(cols: &Columns, row: &'a Vec<String>, k: usize) -> (r: Option<&'a str>)
    requires
        k < cols.optional.len(),
        cols@.within(row.len() as int),
    ensures
        r.deep_view() == optional_cell(cols@, row.deep_view(), k as int),
{
    match cols.optional[k] {
        Some(i) => {
            assert(cols@.optional[k as int] == Some(i as int));
            Some(row[i].as_str())
        },
        None => None,
    }
}

/// A copy of an optional cell.
pub fn owned(cell: Option<&str>) -> (r: Option<String>)
    ensures
        r.deep_view() == cell.deep_view(),
{
    match cell {
        Some(s) => Some(s.to_owned()),
        None => None,
    }
}

/// The cell of `row` in the `k`-th optional column, or `default` where the
/// header lacks the column.
pub fn optional_or(cols: &Columns, row: &Vec<String>, k: usize, default: &str) -> (r: String)
    requires
        k < cols.optional.len(),
        cols@.within(row.len() as int),
    ensures
        r@ == cell_or(cols@, row.deep_view(), k as int, default@),
{
    match cols.optional[k] {
        Some(i) => {
            assert(cols@.optional[k as int] == Some(i as int));
            row[i].clone()
        },
        None => default.to_owned(),
    }
}

/// A kind of record that is read from the rows of one file.
pub trait Record: DeepView + Sized {
    /// The file that holds these records.
    spec fn file() -> FileKind;

    /// The columns that the file must have.
    spec fn required_columns() -> Seq<Seq<char>>;

    /// The columns that the file may have.
    spec fn optional_columns() -> Seq<Seq<char>>;

    /// The record that `row` holds, or why it holds none: the row is too
    /// short, or else the first cell, in the order in which the fields are
    /// read, that does not hold a value of its kind.
    spec fn of_row(cols: ColumnMap, row: Seq<Seq<char>>) -> Result<Self::V, RowFault>;

    /// The key of a record.
    spec fn key_of(v: Self::V) -> Seq<char>;

    /// What holds of every record that was read from a row.
    spec fn sound(v: Self::V) -> bool;

    /// A record that a row holds is sound.
    proof fn lemma_sound(cols: ColumnMap, row: Seq<Seq<char>>)
        ensures
            Self::of_row(cols, row) is Ok ==> Self::sound(Self::of_row(cols, row)->Ok_0),
    ;

    /// The file that holds these records.
    fn kind() -> (f: FileKind)
        ensures
            f == Self::file(),
    ;

    /// The names of the required columns.
    fn required_names() -> (v: Vec<&'static str>)
        ensures
            texts(v@) == Self::required_columns(),
    ;

    /// The names of the optional columns.
    fn optional_names() -> (v: Vec<&'static str>)
        ensures
            texts(v@) == Self::optional_columns(),
    ;

    /// Builds the record that `row` holds.
    fn build(cols: &Columns, row: &Vec<String>) -> (r: Result<Self, RowFault>)
        requires
            cols@.required.len() == Self::required_columns().len(),
            cols@.optional.len() == Self::optional_columns().len(),
        ensures
            match r {
                Ok(record) => Self::of_row(cols@, row.deep_view()) == Ok::<Self::V, RowFault>(
                    record.deep_view(),
                ),
                Err(fault) => Self::of_row(cols@, row.deep_view()) == Err::<Self::V, RowFault>(fault),
            },
    ;

    /// The record's key.
    fn key(&self) -> (k: &String)
        ensures
            k@ == Self::key_of(self.deep_view()),
    ;
}

/// Whether one of `items` has the key `key`.
pub open spec fn has_key<T: Record>(items: Seq<T::V>, key: Seq<char>) -> bool {
    exists|j: int| 0 <= j < items.len() && T::key_of(#[trigger] items[j]) == key
}

/// What the rows of `table` before position `n` hold, for a file in which
/// every key occurs once: the records of the data rows, in order. The first
/// row that holds no record, or whose key an earlier row has, is the fault.
pub open spec fn records_upto<T: Record>(cols: ColumnMap, table: Seq<Seq<Seq<char>>>, n: int) -> Result<
    Seq<T::V>,
    LoadError,
>
    decreases n,
{
    if n <= 1 {
        Ok(Seq::empty())
    } else {
        match records_upto::<T>(cols, table, n - 1) {
            Err(e) => Err(e),
            Ok(items) => match T::of_row(cols, table[n - 1]) {
                Err(fault) => Err(fault.located(T::file(), (n - 1) as usize)),
                Ok(item) => if has_key::<T>(items, T::key_of(item)) {
                    Err(LoadError::DuplicateId(T::file(), (n - 1) as usize))
                } else {
                    Ok(items.push(item))
                },
            },
        }
    }
}

/// The columns that a record type's file has in a table with this header,
/// or the fault of a header that lacks a required one.
pub open spec fn bound_columns<T: Record>(header: Seq<Seq<char>>) -> Result<ColumnMap, LoadError> {
    match first_missing(header, T::required_columns()) {
        Some(k) => Err(LoadError::MissingColumn(T::file(), k as usize)),
        None => Ok(columns_of(header, T::required_columns(), T::optional_columns())),
    }
}

/// What `table` holds, for a file in which every key occurs once.
pub open spec fn unique_table<T: Record>(table: Seq<Seq<Seq<char>>>) -> Result<Seq<T::V>, LoadError> {
    if table.len() == 0 {
        Err(LoadError::NoHeader(T::file()))
    } else {
        match bound_columns::<T>(table[0]) {
            Err(e) => Err(e),
            Ok(cols) => records_upto::<T>(cols, table, table.len() as int),
        }
    }
}

/// The shape of records that were read from a file in which every key
/// occurs once: no two share a key, and each is sound.
pub open spec fn well_keyed<T: Record>(items: Seq<T::V>) -> bool {
    &&& forall|i: int, j: int|
        0 <= i < j < items.len() ==> T::key_of(#[trigger] items[i]) != T::key_of(#[trigger] items[j])
    &&& forall|i: int| 0 <= i < items.len() ==> T::sound(#[trigger] items[i])
}

/// Rows that were read without a fault gave one record each, in order, and
/// the records have the shape of their file.
pub proof fn lemma_records_upto<T: Record>(cols: ColumnMap, table: Seq<Seq<Seq<char>>>, n: int)
    requires
        n >= 1,
    ensures
        match records_upto::<T>(cols, table, n) {
            Ok(items) => {
                &&& items.len() == n - 1
                &&& forall|i: int|
                    0 <= i < n - 1 ==> T::of_row(cols, table[i + 1]) == Ok::<T::V, RowFault>(
                        #[trigger] items[i],
                    )
                &&& well_keyed::<T>(items)
            },
            Err(_) => true,
        },
    decreases n,
{
    if n > 1 {
        lemma_records_upto::<T>(cols, table, n - 1);
        T::lemma_sound(cols, table[n - 1]);
        match records_upto::<T>(cols, table, n) {
            Ok(items) => {
                let before = records_upto::<T>(cols, table, n - 1)->Ok_0;
                let item = T::of_row(cols, table[n - 1])->Ok_0;
                assert(items == before.push(item));
                assert forall|i: int, j: int| 0 <= i < j < items.len() implies T::key_of(
                    #[trigger] items[i],
                ) != T::key_of(#[trigger] items[j]) by {
                    assert(items[i] == before[i]);
                    if j < before.len() {
                        assert(items[j] == before[j]);
                    }
                }
                assert forall|i: int| 0 <= i < n - 1 implies T::of_row(cols, table[i + 1]) == Ok::<
                    T::V,
                    RowFault,
                >(#[trigger] items[i]) by {
                    if i < n - 2 {
                        assert(items[i] == before[i]);
                    }
                }
                assert forall|i: int| 0 <= i < items.len() implies T::sound(#[trigger] items[i]) by {
                    if i < n - 2 {
                        assert(items[i] == before[i]);
                    }
                }
            },
            Err(_) => {},
        }
    }
}

/// A fault among the first rows is the fault of the whole table.
pub proof fn lemma_fault_stays<T: Record>(cols: ColumnMap, table: Seq<Seq<Seq<char>>>, n: int, m: int)
    requires
        n <= m,
        records_upto::<T>(cols, table, n) is Err,
    ensures
        records_upto::<T>(cols, table, m) == records_upto::<T>(cols, table, n),
    decreases m - n,
{
    if n < m {
        lemma_fault_stays::<T>(cols, table, n, m - 1);
    }
}

/// Whether one of `items` has the key `key`.
pub fn contains_key<T: Record>(items: &Vec<T>, key: &str) -> (r: bool)
    ensures
        r == has_key::<T>(items.deep_view(), key@),
{
    proof {
        lemma_position::<T>(items.deep_view(), key@);
    }
    find::<T>(items, key).is_some()
}

/// Binds the columns of a record type's file to the header of its table.
pub fn bind<T: Record>(header: &Vec<String>) -> (r: Result<Columns, LoadError>)
    ensures
        match r {
            Ok(cols) => bound_columns::<T>(header.deep_view()) == Ok::<ColumnMap, LoadError>(cols@)
                && cols@.required.len() == T::required_columns().len() && cols@.optional.len()
                == T::optional_columns().len(),
            Err(e) => bound_columns::<T>(header.deep_view()) == Err::<ColumnMap, LoadError>(e),
        },
{
    let required = T::required_names();
    let optional = T::optional_names();
    match bind_columns(header, &required, &optional) {
        Ok(cols) => Ok(cols),
        Err(k) => Err(LoadError::MissingColumn(T::kind(), k)),
    }
}

/// Reads a table in which every key occurs once into its records, in the
/// order of the rows.
pub fn load_unique<T: Record>(table: &Vec<Vec<String>>) -> (r: Result<Vec<T>, LoadError>)
    ensures
        match r {
            Ok(items) => unique_table::<T>(table.deep_view()) == Ok::<Seq<T::V>, LoadError>(
                items.deep_view(),
            ) && well_keyed::<T>(items.deep_view()),
            Err(e) => unique_table::<T>(table.deep_view()) == Err::<Seq<T::V>, LoadError>(e),
        },
{
    let ghost t = table.deep_view();
    if table.len() == 0 {
        return Err(LoadError::NoHeader(T::kind()));
    }
    assert(t[0] == table@[0].deep_view());
    let cols = match bind::<T>(&table[0]) {
        Ok(cols) => cols,
        Err(e) => {
            return Err(e);
        },
    };
    let mut out: Vec<T> = Vec::new();
    let mut i: usize = 1;
    assert(out.deep_view() =~= Seq::<T::V>::empty());
    while i < table.len()
        invariant
            1 <= i <= table.len(),
            t == table.deep_view(),
            cols@.required.len() == T::required_columns().len(),
            cols@.optional.len() == T::optional_columns().len(),
            bound_columns::<T>(t[0]) == Ok::<ColumnMap, LoadError>(cols@),
            records_upto::<T>(cols@, t, i as int) == Ok::<Seq<T::V>, LoadError>(out.deep_view()),
        decreases table.len() - i,
    {
        assert(t[i as int] == table@[i as int].deep_view());
        match T::build(&cols, &table[i]) {
            Err(fault) => {
                proof {
                    lemma_fault_stays::<T>(cols@, t, i + 1, t.len() as int);
                }
                return Err(fault.at(T::kind(), i));
            },
            Ok(item) => {
                if contains_key::<T>(&out, item.key().as_str()) {
                    proof {
                        lemma_fault_stays::<T>(cols@, t, i + 1, t.len() as int);
                    }
                    return Err(LoadError::DuplicateId(T::kind(), i));
                }
                let ghost before = out.deep_view();
                let ghost added = item.deep_view();
                out.push(item);
                assert(out.deep_view() =~= before.push(added));
            },
        }
        i = i + 1;
    }
    proof {
        lemma_records_upto::<T>(cols@, t, t.len() as int);
    }
    Ok(out)
}

/// Whether a record has the key `key`.
pub open spec fn keyed<T: Record>(key: Seq<char>) -> spec_fn(T::V) -> bool {
    |v: T::V| T::key_of(v) == key
}

/// The position of the record with the key `key`.
pub open spec fn position<T: Record>(items: Seq<T::V>, key: Seq<char>) -> Option<int> {
    first_where(items, keyed::<T>(key))
}

/// The record with the key `key`.
pub open spec fn record<T: Record>(items: Seq<T::V>, key: Seq<char>) -> Option<T::V> {
    match position::<T>(items, key) {
        Some(i) => Some(items[i]),
        None => None,
    }
}

/// A key has a position where a record has the key, and only there.
pub proof fn lemma_position<T: Record>(items: Seq<T::V>, key: Seq<char>)
    ensures
        position::<T>(items, key) is Some <==> has_key::<T>(items, key),
        match position::<T>(items, key) {
            Some(i) => 0 <= i < items.len() && T::key_of(items[i]) == key,
            None => true,
        },
{
    let p = keyed::<T>(key);
    lemma_first_where(items, p);
    match first_where(items, p) {
        Some(i) => {
            assert(p(items[i]));
        },
        None => {
            assert forall|j: int| 0 <= j < items.len() implies T::key_of(#[trigger] items[j])
                != key by {
                assert(!p(items[j]));
            }
        },
    }
}

/// Finds the record with the key `key`.
pub fn find<T: Record>(items: &Vec<T>, key: &str) -> (r: Option<usize>)
    ensures
        match r {
            Some(j) => position::<T>(items.deep_view(), key@) == Some(j as int) && j < items.len(),
            None => position::<T>(items.deep_view(), key@) is None,
        },
{
    let ghost views = items.deep_view();
    let ghost p = keyed::<T>(key@);
    let mut j: usize = 0;
    while j < items.len()
        invariant
            j <= items.len(),
            views == items.deep_view(),
            p == keyed::<T>(key@),
            forall|i: int| 0 <= i < j ==> !p(#[trigger] views[i]),
        decreases items.len() - j,
    {
        assert(views[j as int] == items@[j as int].deep_view());
        if is_text(items[j].key().as_str(), key) {
            proof {
                lemma_first_where_is(views, p, j as int);
            }
            return Some(j);
        }
        j = j + 1;
    }
    proof {
        lemma_first_where_none(views, p);
    }
    None
}

/// The records with the keys `keys`, in the order of the keys.
pub fn lookup_list<'a, T: Record>(items: &'a Vec<T>, keys: &Vec<String>) -> (r: Vec<&'a T>)
    requires
        forall|i: int|
            0 <= i < keys.len() ==> record::<T>(items.deep_view(), #[trigger] keys@[i]@) is Some,
    ensures
        r.len() == keys.len(),
        forall|i: int|
            0 <= i < keys.len() ==> record::<T>(items.deep_view(), keys@[i]@) == Some(
                (#[trigger] r@[i]).deep_view(),
            ),
{
    let ghost views = items.deep_view();
    let mut out: Vec<&'a T> = Vec::new();
    let mut i: usize = 0;
    while i < keys.len()
        invariant
            i <= keys.len(),
            out.len() == i,
            views == items.deep_view(),
            forall|j: int| 0 <= j < keys.len() ==> record::<T>(views, #[trigger] keys@[j]@) is Some,
            forall|j: int|
                0 <= j < i ==> record::<T>(views, keys@[j]@) == Some((#[trigger] out@[j]).deep_view()),
        decreases keys.len() - i,
    {
        assert(record::<T>(views, keys@[i as int]@) is Some);
        match find::<T>(items, keys[i].as_str()) {
            Some(at) => {
                assert(views[at as int] == items@[at as int].deep_view());
                out.push(&items[at]);
            },
            None => {},
        }
        i = i + 1;
    }
    out
}

/// The records of a file that share one key, in the order of their rows.
#[derive(Debug, PartialEq, Eq)]
pub struct Group<T> {
    pub key: String,
    pub items: Vec<T>,
}

/// What a [`Group`] holds, as mathematical values.
pub struct GroupView<V> {
    pub key: Seq<char>,
    pub items: Seq<V>,
}

impl<T: DeepView> DeepView for Group<T> {
    type V = GroupView<T::V>;

    open spec fn deep_view(&self) -> GroupView<T::V> {
        GroupView { key: self.key@, items: self.items.deep_view() }
    }
}

/// Whether a group has the key `key`.
pub open spec fn grouped_under<V>(key: Seq<char>) -> spec_fn(GroupView<V>) -> bool {
    |g: GroupView<V>| g.key == key
}

/// The position of the group with the key `key`.
pub open spec fn group_of<V>(groups: Seq<GroupView<V>>, key: Seq<char>) -> Option<int> {
    first_where(groups, grouped_under::<V>(key))
}

/// The group of a key, where there is one, has the key and lies among the
/// groups.
pub proof fn lemma_first_where_group<V>(groups: Seq<GroupView<V>>, key: Seq<char>)
    ensures
        match group_of(groups, key) {
            Some(i) => 0 <= i < groups.len() && groups[i].key == key,
            None => forall|j: int| 0 <= j < groups.len() ==> (#[trigger] groups[j]).key != key,
        },
{
    let p = grouped_under::<V>(key);
    lemma_first_where(groups, p);
    match first_where(groups, p) {
        Some(i) => {
            assert(p(groups[i]));
        },
        None => {
            assert forall|j: int| 0 <= j < groups.len() implies (#[trigger] groups[j]).key != key by {
                assert(!p(groups[j]));
            }
        },
    }
}

/// Among records of which no two share a key, each is found by its key.
pub proof fn lemma_keyed_record<T: Record>(items: Seq<T::V>, i: int)
    requires
        well_keyed::<T>(items),
        0 <= i < items.len(),
    ensures
        position::<T>(items, T::key_of(items[i])) == Some(i),
        record::<T>(items, T::key_of(items[i])) == Some(items[i]),
{
    let p = keyed::<T>(T::key_of(items[i]));
    assert forall|j: int| 0 <= j < i implies !p(#[trigger] items[j]) by {
        assert(T::key_of(items[j]) != T::key_of(items[i]));
    }
    lemma_first_where_is(items, p, i);
}

/// Among groups of which no two share a key, each is found by its key.
pub proof fn lemma_keyed_group<T: Record>(groups: Seq<GroupView<T::V>>, i: int)
    requires
        well_grouped::<T>(groups),
        0 <= i < groups.len(),
    ensures
        group_of(groups, groups[i].key) == Some(i),
{
    let p = grouped_under::<T::V>(groups[i].key);
    assert forall|j: int| 0 <= j < i implies !p(#[trigger] groups[j]) by {
        assert(groups[j].key != groups[i].key);
    }
    lemma_first_where_is(groups, p, i);
}

/// `groups` with `item` added at the end of the group of `key`; where no
/// group has that key, a new last group holds the item.
pub open spec fn gather<V>(groups: Seq<GroupView<V>>, key: Seq<char>, item: V) -> Seq<GroupView<V>> {
    match group_of(groups, key) {
        Some(j) => groups.update(j, GroupView { key: groups[j].key, items: groups[j].items.push(item) }),
        None => groups.push(GroupView { key, items: seq![item] }),
    }
}

/// What the rows of `table` before position `n` hold, for a file whose
/// records are gathered by key: the groups in the order in which their keys
/// first occur, each with its records in the order of the rows. The fault
/// of the first row that holds no record is the fault.
pub open spec fn groups_upto<T: Record>(cols: ColumnMap, table: Seq<Seq<Seq<char>>>, n: int) -> Result<
    Seq<GroupView<T::V>>,
    LoadError,
>
    decreases n,
{
    if n <= 1 {
        Ok(Seq::empty())
    } else {
        match groups_upto::<T>(cols, table, n - 1) {
            Err(e) => Err(e),
            Ok(groups) => match T::of_row(cols, table[n - 1]) {
                Err(fault) => Err(fault.located(T::file(), (n - 1) as usize)),
                Ok(item) => Ok(gather(groups, T::key_of(item), item)),
            },
        }
    }
}

/// What `table` holds, for a file whose records are gathered by key.
pub open spec fn grouped_table<T: Record>(table: Seq<Seq<Seq<char>>>) -> Result<
    Seq<GroupView<T::V>>,
    LoadError,
> {
    if table.len() == 0 {
        Err(LoadError::NoHeader(T::file()))
    } else {
        match bound_columns::<T>(table[0]) {
            Err(e) => Err(e),
            Ok(cols) => groups_upto::<T>(cols, table, table.len() as int),
        }
    }
}

/// The shape of gathered records: no two groups share a key, no group is
/// empty, and every record is sound and lies in the group of its key.
pub open spec fn well_grouped<T: Record>(groups: Seq<GroupView<T::V>>) -> bool {
    &&& forall|i: int, j: int|
        0 <= i < j < groups.len() ==> (#[trigger] groups[i]).key != (#[trigger] groups[j]).key
    &&& forall|i: int| 0 <= i < groups.len() ==> (#[trigger] groups[i]).items.len() > 0
    &&& forall|i: int, k: int|
        0 <= i < groups.len() && 0 <= k < groups[i].items.len() ==> T::key_of(
            #[trigger] groups[i].items[k],
        ) == groups[i].key && T::sound(groups[i].items[k])
}

/// Gathering one more record keeps the shape.
pub proof fn lemma_gather_well_grouped<T: Record>(groups: Seq<GroupView<T::V>>, item: T::V)
    requires
        well_grouped::<T>(groups),
        T::sound(item),
    ensures
        well_grouped::<T>(gather(groups, T::key_of(item), item)),
{
    let key = T::key_of(item);
    let after = gather(groups, key, item);
    lemma_first_where(groups, grouped_under::<T::V>(key));
    match group_of(groups, key) {
        Some(j) => {
            assert forall|i: int, k: int|
                0 <= i < after.len() && 0 <= k < after[i].items.len() implies T::key_of(
                #[trigger] after[i].items[k],
            ) == after[i].key && T::sound(after[i].items[k]) by {
                if i == j {
                    if k < groups[j].items.len() {
                        assert(after[i].items[k] == groups[j].items[k]);
                    }
                } else {
                    assert(after[i].items[k] == groups[i].items[k]);
                }
            }
            assert forall|a: int, b: int| 0 <= a < b < after.len() implies (#[trigger] after[a]).key != (
            #[trigger] after[b]).key by {
                assert(after[a].key == groups[a].key);
                assert(after[b].key == groups[b].key);
            }
            assert forall|i: int| 0 <= i < after.len() implies (#[trigger] after[i]).items.len() > 0 by {
                if i != j {
                    assert(after[i] == groups[i]);
                }
            }
        },
        None => {
            assert forall|i: int, k: int|
                0 <= i < after.len() && 0 <= k < after[i].items.len() implies T::key_of(
                #[trigger] after[i].items[k],
            ) == after[i].key && T::sound(after[i].items[k]) by {
                if i < groups.len() {
                    assert(after[i].items[k] == groups[i].items[k]);
                }
            }
            assert forall|a: int, b: int| 0 <= a < b < after.len() implies (#[trigger] after[a]).key != (
            #[trigger] after[b]).key by {
                assert(after[a] == groups[a]);
                if b < groups.len() {
                    assert(after[b] == groups[b]);
                }
            }
            assert forall|i: int| 0 <= i < after.len() implies (#[trigger] after[i]).items.len() > 0 by {
                if i < groups.len() {
                    assert(after[i] == groups[i]);
                }
            }
        },
    }
}

/// Rows gathered by key have the shape of gathered records.
pub proof fn lemma_groups_upto_well_grouped<T: Record>(
    cols: ColumnMap,
    table: Seq<Seq<Seq<char>>>,
    n: int,
)
    ensures
        groups_upto::<T>(cols, table, n) is Ok ==> well_grouped::<T>(
            groups_upto::<T>(cols, table, n)->Ok_0,
        ),
    decreases n,
{
    if n > 1 {
        lemma_groups_upto_well_grouped::<T>(cols, table, n - 1);
        T::lemma_sound(cols, table[n - 1]);
        match groups_upto::<T>(cols, table, n - 1) {
            Ok(groups) => match T::of_row(cols, table[n - 1]) {
                Ok(item) => {
                    lemma_gather_well_grouped::<T>(groups, item);
                },
                Err(_) => {},
            },
            Err(_) => {},
        }
    }
}

/// A fault among the first rows is the fault of the whole table.
pub proof fn lemma_group_fault_stays<T: Record>(
    cols: ColumnMap,
    table: Seq<Seq<Seq<char>>>,
    n: int,
    m: int,
)
    requires
        n <= m,
        groups_upto::<T>(cols, table, n) is Err,
    ensures
        groups_upto::<T>(cols, table, m) == groups_upto::<T>(cols, table, n),
    decreases m - n,
{
    if n < m {
        lemma_group_fault_stays::<T>(cols, table, n, m - 1);
    }
}

/// Finds the group with the key `key`. The last group is tried first: the
/// rows of one key mostly follow each other.
pub fn find_group<T: Record>(groups: &Vec<Group<T>>, key: &str) -> (r: Option<usize>)
    requires
        well_grouped::<T>(groups.deep_view()),
    ensures
        match r {
            Some(j) => group_of(groups.deep_view(), key@) == Some(j as int) && j < groups.len(),
            None => group_of(groups.deep_view(), key@) is None,
        },
{
    let ghost views = groups.deep_view();
    let ghost p = grouped_under::<T::V>(key@);
    let n: usize = groups.len();
    if n > 0 && is_text(groups[n - 1].key.as_str(), key) {
        proof {
            assert(views[n - 1] == groups@[n - 1].deep_view());
            assert forall|j: int| 0 <= j < n - 1 implies !p(#[trigger] views[j]) by {
                assert(views[j].key != views[n - 1].key);
            }
            lemma_first_where_is(views, p, n - 1);
        }
        return Some(n - 1);
    }
    let mut j: usize = 0;
    while j < n
        invariant
            j <= n == groups.len(),
            views == groups.deep_view(),
            p == grouped_under::<T::V>(key@),
            forall|i: int| 0 <= i < j ==> !p(#[trigger] views[i]),
        decreases n - j,
    {
        assert(views[j as int] == groups@[j as int].deep_view());
        if is_text(groups[j].key.as_str(), key) {
            proof {
                lemma_first_where_is(views, p, j as int);
            }
            return Some(j);
        }
        j = j + 1;
    }
    proof {
        lemma_first_where_none(views, p);
    }
    None
}

/// Adds `item` to the group of its key, at the end; where no group has that
/// key, a new last group holds the item.
pub fn gather_into<T: Record>(groups: &mut Vec<Group<T>>, item: T)
    requires
        well_grouped::<T>(old(groups).deep_view()),
        T::sound(item.deep_view()),
    ensures
        final(groups).deep_view() == gather(
            old(groups).deep_view(),
            T::key_of(item.deep_view()),
            item.deep_view(),
        ),
        well_grouped::<T>(final(groups).deep_view()),
{
    let ghost before = groups.deep_view();
    let ghost added = item.deep_view();
    proof {
        lemma_gather_well_grouped::<T>(before, added);
    }
    match find_group::<T>(groups, item.key().as_str()) {
        Some(j) => {
            let ghost items_before = groups@[j as int].items.deep_view();
            groups[j].items.push(item);
            assert(groups@[j as int].items.deep_view() =~= items_before.push(added));
            assert(groups.deep_view() =~= gather(before, T::key_of(added), added));
        },
        None => {
            let key = item.key().clone();
            let mut items: Vec<T> = Vec::new();
            items.push(item);
            assert(items.deep_view() =~= seq![added]);
            groups.push(Group { key, items });
            assert(groups.deep_view() =~= gather(before, T::key_of(added), added));
        },
    }
}

/// Reads a table whose records are gathered by key.
pub fn load_grouped<T: Record>(table: &Vec<Vec<String>>) -> (r: Result<Vec<Group<T>>, LoadError>)
    ensures
        match r {
            Ok(groups) => grouped_table::<T>(table.deep_view()) == Ok::<
                Seq<GroupView<T::V>>,
                LoadError,
            >(groups.deep_view()) && well_grouped::<T>(groups.deep_view()),
            Err(e) => grouped_table::<T>(table.deep_view()) == Err::<Seq<GroupView<T::V>>, LoadError>(
                e,
            ),
        },
{
    let ghost t = table.deep_view();
    if table.len() == 0 {
        return Err(LoadError::NoHeader(T::kind()));
    }
    assert(t[0] == table@[0].deep_view());
    let cols = match bind::<T>(&table[0]) {
        Ok(cols) => cols,
        Err(e) => {
            return Err(e);
        },
    };
    let mut out: Vec<Group<T>> = Vec::new();
    let mut i: usize = 1;
    assert(out.deep_view() =~= Seq::<GroupView<T::V>>::empty());
    while i < table.len()
        invariant
            1 <= i <= table.len(),
            t == table.deep_view(),
            cols@.required.len() == T::required_columns().len(),
            cols@.optional.len() == T::optional_columns().len(),
            bound_columns::<T>(t[0]) == Ok::<ColumnMap, LoadError>(cols@),
            groups_upto::<T>(cols@, t, i as int) == Ok::<Seq<GroupView<T::V>>, LoadError>(
                out.deep_view(),
            ),
            well_grouped::<T>(out.deep_view()),
        decreases table.len() - i,
    {
        assert(t[i as int] == table@[i as int].deep_view());
        match T::build(&cols, &table[i]) {
            Err(fault) => {
                proof {
                    lemma_group_fault_stays::<T>(cols@, t, i + 1, t.len() as int);
                }
                return Err(fault.at(T::kind(), i));
            },
            Ok(item) => {
                proof {
                    T::lemma_sound(cols@, t[i as int]);
                }
                gather_into::<T>(&mut out, item);
            },
        }
        i = i + 1;
    }
    Ok(out)
}

} // verus!
