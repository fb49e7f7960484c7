//! CBOR data items as a tree, as `serde_cbor` parses them, and the key
//! normalisation that lets integer-keyed and text-keyed maps be read alike.
use crate::cbor::{bytes_eq, push_bytes, CborError, CborErrorView};
use serde_cbor::Value;
use vstd::prelude::*;
use vstd::utf8::encode_utf8;

verus! {

// ---------------------------------------------------------------------------
// Trees
// ---------------------------------------------------------------------------

/// A CBOR data item: the values `serde_cbor::Value` holds. A float is held
/// by the bits of its `f64`; a map by its entries in the map's order.
#[derive(Debug)]
pub enum CborTree {
    Null,
    Bool(bool),
    Integer(i128),
    FloatBits(u64),
    Bytes(Vec<u8>),
    Text(String),
    Array(Vec<CborTree>),
    Entries(Vec<(CborTree, CborTree)>),
    Tag(u64, Box<CborTree>),
}

/// The view of a `CborTree`.
pub enum CborTreeView {
    Null,
    Bool(bool),
    Integer(int),
    FloatBits(u64),
    Bytes(Seq<u8>),
    Text(Seq<char>),
    Array(Seq<CborTreeView>),
    Entries(Seq<(CborTreeView, CborTreeView)>),
    Tag(u64, Box<CborTreeView>),
}

/// The view of a tree.
pub open spec fn tree_view(t: CborTree) -> CborTreeView
    decreases t,
{
    match t {
        CborTree::Null => CborTreeView::Null,
        CborTree::Bool(b) => CborTreeView::Bool(b),
        CborTree::Integer(i) => CborTreeView::Integer(i as int),
        CborTree::FloatBits(f) => CborTreeView::FloatBits(f),
        CborTree::Bytes(b) => CborTreeView::Bytes(b@),
        CborTree::Text(s) => CborTreeView::Text(s@),
        CborTree::Array(v) => CborTreeView::Array(trees_view(v@)),
        CborTree::Entries(v) => CborTreeView::Entries(entries_view(v@)),
        CborTree::Tag(n, b) => CborTreeView::Tag(n, Box::new(tree_view(*b))),
    }
}

/// The views of a list of trees.
pub open spec fn trees_view(s: Seq<CborTree>) -> Seq<CborTreeView>
    decreases s,
{
    if s.len() == 0 {
        Seq::empty()
    } else {
        trees_view(s.drop_last()).push(tree_view(s.last()))
    }
}

/// The views of a list of map entries.
pub open spec fn entries_view(s: Seq<(CborTree, CborTree)>) -> Seq<(CborTreeView, CborTreeView)>
    decreases s,
{
    if s.len() == 0 {
        Seq::empty()
    } else {
        entries_view(s.drop_last()).push((tree_view(s.last().0), tree_view(s.last().1)))
    }
}

impl View for CborTree {
    type V = CborTreeView;

    open spec fn view(&self) -> CborTreeView {
        tree_view(*self)
    }
}

pub proof fn lemma_trees_view(s: Seq<CborTree>)
    ensures
        trees_view(s).len() == s.len(),
        forall|i: int| 0 <= i < s.len() ==> #[trigger] trees_view(s)[i] == tree_view(s[i]),
    decreases s.len(),
{
    if s.len() > 0 {
        lemma_trees_view(s.drop_last());
    }
}

pub proof fn lemma_entries_view(s: Seq<(CborTree, CborTree)>)
    ensures
        entries_view(s).len() == s.len(),
        forall|i: int|
            0 <= i < s.len() ==> #[trigger] entries_view(s)[i] == (
                tree_view(s[i].0),
                tree_view(s[i].1),
            ),
    decreases s.len(),
{
    if s.len() > 0 {
        lemma_entries_view(s.drop_last());
    }
}

// ---------------------------------------------------------------------------
// Text keys that spell an i32
// ---------------------------------------------------------------------------

/// The number that the ASCII decimal digits `b` spell; `None` for no digits
/// or a byte that is not a digit.
pub open spec fn decimal_value(b: Seq<u8>) -> Option<int>
    decreases b.len(),
{
    if b.len() == 0 {
        None
    } else if !(0x30 <= b.last() <= 0x39) {
        None
    } else if b.len() == 1 {
        Some(b.last() - 0x30)
    } else {
        match decimal_value(b.drop_last()) {
            Some(v) => Some(v * 10 + (b.last() - 0x30)),
            None => None,
        }
    }
}

/// The `i32` that `str::parse::<i32>` reads from text with UTF-8 bytes `b`:
/// an optional `+` or `-`, then decimal digits, the value in range.
pub open spec fn i32_text_value(b: Seq<u8>) -> Option<i32> {
    if b.len() > 0 && b[0] == 0x2d {
        match decimal_value(b.drop_first()) {
            Some(v) => if v <= 0x8000_0000 {
                Some((-v) as i32)
            } else {
                None
            },
            None => None,
        }
    } else {
        let d = if b.len() > 0 && b[0] == 0x2b {
            b.drop_first()
        } else {
            b
        };
        match decimal_value(d) {
            Some(v) => if v <= 0x7fff_ffff {
                Some(v as i32)
            } else {
                None
            },
            None => None,
        }
    }
}

/// A digit string's prefixes are digit strings, of no greater value.
proof fn lemma_decimal_prefix(d: Seq<u8>, k: int)
    requires
        1 <= k <= d.len(),
        decimal_value(d) is Some,
    ensures
        decimal_value(d.subrange(0, k)) is Some,
        decimal_value(d.subrange(0, k))->Some_0 <= decimal_value(d)->Some_0,
        decimal_value(d)->Some_0 >= 0,
    decreases d.len(),
{
    if d.len() > 1 {
        lemma_decimal_prefix(d.drop_last(), if k == d.len() { k - 1 } else { k });
        assert(d.drop_last().subrange(0, k - 1) =~= d.subrange(0, k - 1));
        if k < d.len() {
            assert(d.drop_last().subrange(0, k) =~= d.subrange(0, k));
        }
    }
    assert(d.subrange(0, d.len() as int) =~= d);
}

/// Reads the digits of `b` from `start` as a number, or `None` where they
/// are not all digits, there are none, or the number passes `2^31`.
fn parse_digits(b: &[u8], start: usize) -> (r: Option<i64>)
    requires
        start <= b@.len(),
    ensures
        r matches Some(v) ==> 0 <= v <= 0x8000_0000,
        match decimal_value(b@.subrange(start as int, b@.len() as int)) {
            Some(v) => if v <= 0x8000_0000 {
                r == Some(v as i64) && v >= 0
            } else {
                r is None
            },
            None => r is None,
        },
{
    let n = b.len();
    let ghost d = b@.subrange(start as int, n as int);
    if start == n {
        return None;
    }
    let mut acc: i64 = 0;
    let mut i: usize = start;
    while i < n
        invariant
            start <= i <= n,
            n == b@.len(),
            d == b@.subrange(start as int, n as int),
            0 <= acc <= 0x8000_0000,
            i > start ==> decimal_value(d.subrange(0, i - start)) == Some(acc as int),
            i == start ==> acc == 0,
        decreases n - i,
    {
        let c = b[i];
        if !(0x30 <= c && c <= 0x39) {
            proof {
                if let Some(v) = decimal_value(d) {
                    lemma_decimal_prefix(d, i - start + 1);
                    let pre = d.subrange(0, i - start + 1);
                    assert(pre.last() == c);
                }
            }
            return None;
        }
        proof {
            let pre = d.subrange(0, i - start + 1);
            assert(pre.last() == c);
            if i > start {
                assert(pre.drop_last() =~= d.subrange(0, i - start));
            }
        }
        acc = acc * 10 + (c - 0x30) as i64;
        if acc > 0x8000_0000 {
            proof {
                if let Some(v) = decimal_value(d) {
                    lemma_decimal_prefix(d, i - start + 1);
                }
            }
            return None;
        }
        i = i + 1;
    }
    assert(d.subrange(0, n - start) =~= d);
    Some(acc)
}

/// `str::parse::<i32>` of the text with UTF-8 bytes `b`.
fn parse_i32_bytes(b: &[u8]) -> (r: Option<i32>)
    ensures
        r == i32_text_value(b@),
{
    let n = b.len();
    if n > 0 && b[0] == 0x2d {
        assert(b@.drop_first() =~= b@.subrange(1, n as int));
        let r = parse_digits(b, 1);
        match r {
            Some(v) => {
                let w: i64 = -v;
                Some(w as i32)
            },
            None => None,
        }
    } else {
        let start: usize = if n > 0 && b[0] == 0x2b { 1 } else { 0 };
        if n > 0 {
            assert(b@.drop_first() =~= b@.subrange(1, n as int));
        }
        assert(b@ =~= b@.subrange(0, n as int));
        match parse_digits(b, start) {
            Some(v) => if v <= 0x7fff_ffff {
                Some(v as i32)
            } else {
                None
            },
            None => None,
        }
    }
}

// ---------------------------------------------------------------------------
// Key normalisation
// ---------------------------------------------------------------------------

/// A map key after normalisation: text that `str::parse::<i32>` reads
/// becomes that integer; every other key stays as it is.
pub open spec fn renamed_key(k: CborTreeView) -> CborTreeView {
    match k {
        CborTreeView::Text(t) => match i32_text_value(encode_utf8(t)) {
            Some(i) => CborTreeView::Integer(i as int),
            None => k,
        },
        _ => k,
    }
}

/// The first position at or after `j` whose entry has key `k`.
pub open spec fn key_position(acc: Seq<(CborTreeView, CborTreeView)>, k: CborTreeView, j: int) -> Option<
    int,
>
    decreases acc.len() - j,
{
    if j < 0 || j >= acc.len() {
        None
    } else if acc[j].0 == k {
        Some(j)
    } else {
        key_position(acc, k, j + 1)
    }
}

/// Entries with `(k, v)` inserted as a map insert does: a present key gets
/// the new value in its place; a new key goes last.
pub open spec fn insert_entry(
    acc: Seq<(CborTreeView, CborTreeView)>,
    k: CborTreeView,
    v: CborTreeView,
) -> Seq<(CborTreeView, CborTreeView)> {
    match key_position(acc, k, 0) {
        Some(j) => acc.update(j, (k, v)),
        None => acc.push((k, v)),
    }
}

/// A tree with its map keys normalised, through array members, map values
/// and tag contents: each map's keys are renamed (`renamed_key`) and its
/// entries inserted in their order, so that of two entries whose keys
/// coincide after renaming the later one's value stands, at the earlier
/// one's place.
pub open spec fn normalized(t: CborTreeView) -> CborTreeView
    decreases t,
{
    match t {
        CborTreeView::Array(s) => CborTreeView::Array(normalized_all(s)),
        CborTreeView::Entries(e) => CborTreeView::Entries(normalized_entries(e)),
        CborTreeView::Tag(n, b) => CborTreeView::Tag(n, Box::new(normalized(*b))),
        _ => t,
    }
}

/// Each tree of `s` normalised.
pub open spec fn normalized_all(s: Seq<CborTreeView>) -> Seq<CborTreeView>
    decreases s,
{
    if s.len() == 0 {
        Seq::empty()
    } else {
        normalized_all(s.drop_last()).push(normalized(s.last()))
    }
}

/// The entries of a map with keys renamed and values normalised.
pub open spec fn normalized_entries(e: Seq<(CborTreeView, CborTreeView)>) -> Seq<
    (CborTreeView, CborTreeView),
>
    decreases e,
{
    if e.len() == 0 {
        Seq::empty()
    } else {
        insert_entry(
            normalized_entries(e.drop_last()),
            renamed_key(e.last().0),
            normalized(e.last().1),
        )
    }
}

pub proof fn lemma_normalized_all(s: Seq<CborTreeView>)
    ensures
        normalized_all(s).len() == s.len(),
        forall|i: int| 0 <= i < s.len() ==> #[trigger] normalized_all(s)[i] == normalized(s[i]),
    decreases s.len(),
{
    if s.len() > 0 {
        lemma_normalized_all(s.drop_last());
    }
}

/// Whether the maps of `t`, through array members, map values and tag
/// contents, have no key that is text spelling an `i32`, and no key twice.
pub open spec fn keys_normal(t: CborTreeView) -> bool
    decreases t,
{
    match t {
        CborTreeView::Array(s) => all_keys_normal(s),
        CborTreeView::Entries(e) => entries_normal(e) && values_keys_normal(e),
        CborTreeView::Tag(_, b) => keys_normal(*b),
        _ => true,
    }
}

/// Whether each tree of `s` has normal keys.
pub open spec fn all_keys_normal(s: Seq<CborTreeView>) -> bool
    decreases s,
{
    if s.len() == 0 {
        true
    } else {
        all_keys_normal(s.drop_last()) && keys_normal(s.last())
    }
}

/// Whether each value of the entries `e` has normal keys.
pub open spec fn values_keys_normal(e: Seq<(CborTreeView, CborTreeView)>) -> bool
    decreases e,
{
    if e.len() == 0 {
        true
    } else {
        values_keys_normal(e.drop_last()) && keys_normal(e.last().1)
    }
}

proof fn lemma_all_keys_normal(s: Seq<CborTreeView>)
    ensures
        all_keys_normal(s) <==> forall|i: int| 0 <= i < s.len() ==> #[trigger] keys_normal(s[i]),
    decreases s.len(),
{
    if s.len() > 0 {
        let d = s.drop_last();
        lemma_all_keys_normal(d);
        if all_keys_normal(s) {
            assert forall|i: int| 0 <= i < s.len() implies #[trigger] keys_normal(s[i]) by {
                if i < d.len() {
                    assert(d[i] == s[i]);
                    assert(keys_normal(d[i]));
                }
            }
        }
        if forall|i: int| 0 <= i < s.len() ==> #[trigger] keys_normal(s[i]) {
            assert forall|i: int| 0 <= i < d.len() implies #[trigger] keys_normal(d[i]) by {
                assert(d[i] == s[i]);
                assert(keys_normal(s[i]));
            }
            assert(keys_normal(s[s.len() - 1]));
        }
    }
}

proof fn lemma_values_keys_normal(e: Seq<(CborTreeView, CborTreeView)>)
    ensures
        values_keys_normal(e) <==> forall|i: int|
            0 <= i < e.len() ==> #[trigger] keys_normal(e[i].1),
    decreases e.len(),
{
    if e.len() > 0 {
        let d = e.drop_last();
        lemma_values_keys_normal(d);
        if values_keys_normal(e) {
            assert forall|i: int| 0 <= i < e.len() implies #[trigger] keys_normal(e[i].1) by {
                if i < d.len() {
                    assert(d[i] == e[i]);
                    assert(keys_normal(d[i].1));
                }
            }
        }
        if forall|i: int| 0 <= i < e.len() ==> #[trigger] keys_normal(e[i].1) {
            assert forall|i: int| 0 <= i < d.len() implies #[trigger] keys_normal(d[i].1) by {
                assert(d[i] == e[i]);
                assert(keys_normal(e[i].1));
            }
            assert(keys_normal(e[e.len() - 1].1));
        }
    }
}

/// Whether no key of the entries `e` is renamed by `renamed_key`, and no key
/// stands twice.
pub open spec fn entries_normal(e: Seq<(CborTreeView, CborTreeView)>) -> bool {
    &&& forall|i: int| 0 <= i < e.len() ==> #[trigger] renamed_key(e[i].0) == e[i].0
    &&& forall|i: int, j: int| 0 <= i < j < e.len() ==> #[trigger] e[i].0 != #[trigger] e[j].0
}

proof fn lemma_key_position(acc: Seq<(CborTreeView, CborTreeView)>, k: CborTreeView, j: int)
    requires
        0 <= j,
    ensures
        key_position(acc, k, j) matches Some(m) ==> j <= m < acc.len() && acc[m].0 == k,
        key_position(acc, k, j) is None ==> forall|m: int| j <= m < acc.len() ==> acc[m].0 != k,
    decreases acc.len() - j,
{
    if j < acc.len() && acc[j].0 != k {
        lemma_key_position(acc, k, j + 1);
    }
}

proof fn lemma_insert_entry_normal(
    acc: Seq<(CborTreeView, CborTreeView)>,
    k: CborTreeView,
    v: CborTreeView,
)
    requires
        entries_normal(acc),
        forall|i: int| 0 <= i < acc.len() ==> #[trigger] keys_normal(acc[i].1),
        renamed_key(k) == k,
        keys_normal(v),
    ensures
        entries_normal(insert_entry(acc, k, v)),
        forall|i: int|
            0 <= i < insert_entry(acc, k, v).len() ==> #[trigger] keys_normal(
                insert_entry(acc, k, v)[i].1,
            ),
{
    lemma_key_position(acc, k, 0);
    let r = insert_entry(acc, k, v);
    match key_position(acc, k, 0) {
        Some(m) => {
            assert forall|i: int, j: int| 0 <= i < j < r.len() implies #[trigger] r[i].0
                != #[trigger] r[j].0 by {
                assert(acc[i].0 != acc[j].0);
            }
        },
        None => {
            assert forall|i: int, j: int| 0 <= i < j < r.len() implies #[trigger] r[i].0
                != #[trigger] r[j].0 by {
                if j < acc.len() {
                    assert(acc[i].0 != acc[j].0);
                }
            }
        },
    }
}

proof fn lemma_entries_normal(e: Seq<(CborTreeView, CborTreeView)>)
    requires
        forall|i: int| 0 <= i < e.len() ==> #[trigger] keys_normal(normalized(e[i].1)),
    ensures
        entries_normal(normalized_entries(e)),
        forall|i: int|
            0 <= i < normalized_entries(e).len() ==> #[trigger] keys_normal(
                normalized_entries(e)[i].1,
            ),
    decreases e.len(),
{
    if e.len() > 0 {
        let d = e.drop_last();
        assert forall|i: int| 0 <= i < d.len() implies #[trigger] keys_normal(normalized(d[i].1)) by {
            assert(d[i] == e[i]);
        }
        lemma_entries_normal(d);
        assert(keys_normal(normalized(e[e.len() - 1].1)));
        lemma_insert_entry_normal(
            normalized_entries(d),
            renamed_key(e.last().0),
            normalized(e.last().1),
        );
    }
}

/// After normalisation, no map key is text that spells an `i32`, and no map
/// has a key twice, throughout the tree.
pub proof fn lemma_normalized_keys_normal(t: CborTreeView)
    ensures
        keys_normal(normalized(t)),
    decreases t,
{
    match t {
        CborTreeView::Array(s) => {
            lemma_normalized_all(s);
            assert forall|i: int| 0 <= i < normalized_all(s).len() implies #[trigger] keys_normal(
                normalized_all(s)[i],
            ) by {
                lemma_normalized_keys_normal(s[i]);
            }
            lemma_all_keys_normal(normalized_all(s));
        },
        CborTreeView::Entries(e) => {
            assert forall|i: int| 0 <= i < e.len() implies #[trigger] keys_normal(
                normalized(e[i].1),
            ) by {
                lemma_normalized_keys_normal(e[i].1);
            }
            lemma_entries_normal(e);
            lemma_values_keys_normal(normalized_entries(e));
        },
        CborTreeView::Tag(_, b) => {
            lemma_normalized_keys_normal(*b);
        },
        _ => {},
    }
}

// ---------------------------------------------------------------------------
// Copying and comparing trees
// ---------------------------------------------------------------------------

/// A copy of a tree.
pub fn tree_clone(t: &CborTree) -> (r: CborTree)
    ensures
        r@ == t@,
    decreases t,
{
    match t {
        CborTree::Null => CborTree::Null,
        CborTree::Bool(b) => CborTree::Bool(*b),
        CborTree::Integer(i) => CborTree::Integer(*i),
        CborTree::FloatBits(f) => CborTree::FloatBits(*f),
        CborTree::Bytes(b) => {
            let mut w: Vec<u8> = Vec::new();
            push_bytes(&mut w, b.as_slice());
            assert(w@ =~= b@);
            CborTree::Bytes(w)
        },
        CborTree::Text(s) => CborTree::Text(s.clone()),
        CborTree::Array(v) => CborTree::Array(clone_trees(v)),
        CborTree::Entries(v) => CborTree::Entries(clone_entries(v)),
        CborTree::Tag(n, b) => CborTree::Tag(*n, Box::new(tree_clone(b))),
    }
}

/// A copy of a list of trees.
fn clone_trees(v: &Vec<CborTree>) -> (r: Vec<CborTree>)
    ensures
        trees_view(r@) == trees_view(v@),
    decreases v,
{
    let mut out: Vec<CborTree> = Vec::new();
    let mut i: usize = 0;
    while i < v.len()
        invariant
            i <= v@.len(),
            out@.len() == i,
            forall|j: int| 0 <= j < i ==> (#[trigger] out@[j])@ == v@[j]@,
        decreases v@.len() - i,
    {
        let c = tree_clone(&v[i]);
        out.push(c);
        i = i + 1;
    }
    proof {
        lemma_trees_view(out@);
        lemma_trees_view(v@);
        assert(trees_view(out@) =~= trees_view(v@));
    }
    out
}

/// A copy of a list of map entries.
fn clone_entries(v: &Vec<(CborTree, CborTree)>) -> (r: Vec<(CborTree, CborTree)>)
    ensures
        entries_view(r@) == entries_view(v@),
    decreases v,
{
    let mut out: Vec<(CborTree, CborTree)> = Vec::new();
    let mut i: usize = 0;
    while i < v.len()
        invariant
            i <= v@.len(),
            out@.len() == i,
            forall|j: int|
                0 <= j < i ==> (#[trigger] out@[j]).0@ == v@[j].0@ && out@[j].1@ == v@[j].1@,
        decreases v@.len() - i,
    {
        let k = tree_clone(&v[i].0);
        let x = tree_clone(&v[i].1);
        out.push((k, x));
        i = i + 1;
    }
    proof {
        lemma_entries_view(out@);
        lemma_entries_view(v@);
        assert(entries_view(out@) =~= entries_view(v@));
    }
    out
}

/// Whether two trees are equal.
pub fn tree_eq(a: &CborTree, b: &CborTree) -> (r: bool)
    ensures
        r == (a@ == b@),
    decreases a,
{
    match (a, b) {
        (CborTree::Null, CborTree::Null) => true,
        (CborTree::Bool(x), CborTree::Bool(y)) => *x == *y,
        (CborTree::Integer(x), CborTree::Integer(y)) => *x == *y,
        (CborTree::FloatBits(x), CborTree::FloatBits(y)) => *x == *y,
        (CborTree::Bytes(x), CborTree::Bytes(y)) => bytes_eq(x.as_slice(), y.as_slice()),
        (CborTree::Text(x), CborTree::Text(y)) => *x == *y,
        (CborTree::Array(x), CborTree::Array(y)) => trees_eq(x, y),
        (CborTree::Entries(x), CborTree::Entries(y)) => entries_eq(x, y),
        (CborTree::Tag(n, x), CborTree::Tag(m, y)) => *n == *m && tree_eq(x, y),
        _ => false,
    }
}

/// Whether two lists of trees are equal.
fn trees_eq(x: &Vec<CborTree>, y: &Vec<CborTree>) -> (r: bool)
    ensures
        r == (trees_view(x@) == trees_view(y@)),
    decreases x,
{
    proof {
        lemma_trees_view(x@);
        lemma_trees_view(y@);
    }
    if x.len() != y.len() {
        return false;
    }
    let mut i: usize = 0;
    while i < x.len()
        invariant
            x@.len() == y@.len(),
            i <= x@.len(),
            forall|j: int| 0 <= j < i ==> (#[trigger] x@[j])@ == y@[j]@,
        decreases x@.len() - i,
    {
        if !tree_eq(&x[i], &y[i]) {
            proof {
                lemma_trees_view(x@);
                lemma_trees_view(y@);
                assert(trees_view(x@)[i as int] != trees_view(y@)[i as int]);
            }
            return false;
        }
        i = i + 1;
    }
    proof {
        lemma_trees_view(x@);
        lemma_trees_view(y@);
        assert(trees_view(x@) =~= trees_view(y@));
    }
    true
}

/// Whether two lists of map entries are equal.
fn entries_eq(x: &Vec<(CborTree, CborTree)>, y: &Vec<(CborTree, CborTree)>) -> (r: bool)
    ensures
        r == (entries_view(x@) == entries_view(y@)),
    decreases x,
{
    proof {
        lemma_entries_view(x@);
        lemma_entries_view(y@);
    }
    if x.len() != y.len() {
        return false;
    }
    let mut i: usize = 0;
    while i < x.len()
        invariant
            x@.len() == y@.len(),
            i <= x@.len(),
            forall|j: int|
                0 <= j < i ==> (#[trigger] x@[j]).0@ == y@[j].0@ && x@[j].1@ == y@[j].1@,
        decreases x@.len() - i,
    {
        if !tree_eq(&x[i].0, &y[i].0) || !tree_eq(&x[i].1, &y[i].1) {
            proof {
                lemma_entries_view(x@);
                lemma_entries_view(y@);
                assert(entries_view(x@)[i as int] != entries_view(y@)[i as int]);
            }
            return false;
        }
        i = i + 1;
    }
    proof {
        lemma_entries_view(x@);
        lemma_entries_view(y@);
        assert(entries_view(x@) =~= entries_view(y@));
    }
    true
}

/// Renames a map key as `renamed_key` says.
fn rename_key(k: &CborTree) -> (r: CborTree)
    ensures
        r@ == renamed_key(k@),
{
    match k {
        CborTree::Text(s) => match parse_i32_bytes(s.as_str().as_bytes()) {
            Some(i) => CborTree::Integer(i as i128),
            None => tree_clone(k),
        },
        _ => tree_clone(k),
    }
}

/// Inserts an entry as a map insert does (see `insert_entry`).
fn insert_entry_into(out: &mut Vec<(CborTree, CborTree)>, k: CborTree, x: CborTree)
    ensures
        entries_view(final(out)@) == insert_entry(entries_view(old(out)@), k@, x@),
{
    let ghost acc = entries_view(out@);
    proof {
        lemma_entries_view(out@);
    }
    let mut j: usize = 0;
    while j < out.len()
        invariant
            j <= out@.len(),
            out@ == old(out)@,
            acc == entries_view(out@),
            acc.len() == out@.len(),
            forall|m: int|
                0 <= m < out@.len() ==> #[trigger] acc[m] == (out@[m].0@, out@[m].1@),
            key_position(acc, k@, 0) == key_position(acc, k@, j as int),
        decreases out@.len() - j,
    {
        if tree_eq(&out[j].0, &k) {
            let ghost kv = k@;
            let ghost xv = x@;
            assert(acc[j as int].0 == kv);
            assert(key_position(acc, kv, j as int) == Some(j as int));
            let ghost before = out@;
            assert(forall|m: int| 0 <= m < before.len() ==> #[trigger] acc[m] == (before[m].0@, before[m].1@));
            out.set(j, (k, x));
            proof {
                lemma_entries_view(out@);
                assert(forall|m: int| 0 <= m < before.len() && m != j ==> #[trigger] out@[m] == before[m]);
                assert(entries_view(out@) =~= acc.update(j as int, (kv, xv)));
                assert(acc == entries_view(old(out)@));
                assert(insert_entry(acc, kv, xv) == acc.update(j as int, (kv, xv)));
            }
            return;
        }
        j = j + 1;
    }
    let ghost kv = k@;
    let ghost xv = x@;
    out.push((k, x));
    proof {
        lemma_entries_view(out@);
        assert(entries_view(out@) =~= acc.push((kv, xv)));
    }
}

/// Normalises the keys of every map in `value` (see `normalized`): map keys
/// that are text spelling an `i32` become integer keys, throughout the tree.
pub fn normalize_keys(value: &CborTree) -> (r: CborTree)
    ensures
        r@ == normalized(value@),
        keys_normal(r@),
    decreases value,
{
    proof {
        lemma_normalized_keys_normal(value@);
    }
    match value {
        CborTree::Array(v) => CborTree::Array(normalize_all(v)),
        CborTree::Entries(v) => CborTree::Entries(normalize_entries(v)),
        CborTree::Tag(n, b) => CborTree::Tag(*n, Box::new(normalize_keys(b))),
        _ => tree_clone(value),
    }
}

/// Each tree of `v` with its keys normalised.
fn normalize_all(v: &Vec<CborTree>) -> (r: Vec<CborTree>)
    ensures
        trees_view(r@) == normalized_all(trees_view(v@)),
    decreases v,
{
    let mut out: Vec<CborTree> = Vec::new();
    let mut i: usize = 0;
    while i < v.len()
        invariant
            i <= v@.len(),
            out@.len() == i,
            forall|j: int| 0 <= j < i ==> (#[trigger] out@[j])@ == normalized(v@[j]@),
        decreases v@.len() - i,
    {
        let c = normalize_keys(&v[i]);
        out.push(c);
        i = i + 1;
    }
    proof {
        lemma_trees_view(out@);
        lemma_trees_view(v@);
        lemma_normalized_all(trees_view(v@));
        assert(trees_view(out@) =~= normalized_all(trees_view(v@)));
    }
    out
}

/// The entries of a map with keys renamed and values normalised.
fn normalize_entries(v: &Vec<(CborTree, CborTree)>) -> (r: Vec<(CborTree, CborTree)>)
    ensures
        entries_view(r@) == normalized_entries(entries_view(v@)),
    decreases v,
{
    let mut out: Vec<(CborTree, CborTree)> = Vec::new();
    let mut i: usize = 0;
    assert(entries_view(v@.subrange(0, 0)) =~= Seq::<(CborTreeView, CborTreeView)>::empty());
    assert(entries_view(out@) =~= Seq::<(CborTreeView, CborTreeView)>::empty());
    while i < v.len()
        invariant
            i <= v@.len(),
            entries_view(out@) == normalized_entries(entries_view(v@.subrange(0, i as int))),
        decreases v@.len() - i,
    {
        let k = rename_key(&v[i].0);
        let x = normalize_keys(&v[i].1);
        let ghost kv = k@;
        let ghost xv = x@;
        insert_entry_into(&mut out, k, x);
        proof {
            let sub = v@.subrange(0, i + 1);
            assert(sub.drop_last() =~= v@.subrange(0, i as int));
            let e1 = entries_view(sub);
            assert(e1.drop_last() =~= entries_view(v@.subrange(0, i as int)));
            assert(e1.last() == (v@[i as int].0@, v@[i as int].1@));
        }
        i = i + 1;
    }
    assert(v@.subrange(0, v@.len() as int) =~= v@);
    out
}

// ---------------------------------------------------------------------------
// Parsing with serde_cbor
// ---------------------------------------------------------------------------

/// `serde_cbor::Value`: declared so that a parsed value can be converted; it
/// is opaque here and nothing is claimed of it.
#[verifier::external_type_specification]
#[verifier::external_body]
pub struct ExCborValue(serde_cbor::Value);

/// What `serde_cbor::from_slice::<serde_cbor::Value>` gives for `data`: the
/// value as a tree, or the text of its error.
pub uninterp spec fn cbor_tree_parsed(data: Seq<u8>) -> Result<CborTreeView, Seq<char>>;

/// Converts a `serde_cbor::Value` to a tree, variant by variant: a float by
/// the bits of its `f64`, a map by its entries in the map's order; the last
/// arm takes `Null` and the enum's hidden variant, which serde_cbor never
/// builds. This is the conversion of `cbor_tree_from_slice`'s result;
/// nothing is claimed of it apart from that result.
#[verifier::external_body]
fn tree_of_value(v: &Value) -> CborTree {
    match v {
        Value::Bool(b) => CborTree::Bool(*b),
        Value::Integer(i) => CborTree::Integer(*i),
        Value::Float(f) => CborTree::FloatBits(f.to_bits()),
        Value::Bytes(b) => CborTree::Bytes(b.clone()),
        Value::Text(t) => CborTree::Text(t.clone()),
        Value::Array(a) => CborTree::Array(a.iter().map(tree_of_value).collect()),
        Value::Map(m) => CborTree::Entries(
            m.iter().map(|(k, x)| (tree_of_value(k), tree_of_value(x))).collect(),
        ),
        Value::Tag(n, b) => CborTree::Tag(*n, Box::new(tree_of_value(b))),
        _ => CborTree::Null,
    }
}

/// Parses `data` with `serde_cbor::from_slice::<serde_cbor::Value>` and
/// converts the value to a tree.
///
/// Trusted: the result is what `cbor_tree_parsed` names, the error as its
/// text.
#[verifier::external_body]
fn cbor_tree_from_slice(data: &[u8]) -> (r: Result<CborTree, String>)
    ensures
        match r {
            Ok(t) => cbor_tree_parsed(data@) == Ok::<CborTreeView, Seq<char>>(t@),
            Err(m) => cbor_tree_parsed(data@) == Err::<CborTreeView, Seq<char>>(m@),
        },
{
    match serde_cbor::from_slice::<serde_cbor::Value>(data) {
        Ok(v) => Ok(tree_of_value(&v)),
        Err(e) => Err(e.to_string()),
    }
}

/// Parses CBOR bytes into a tree and normalises its map keys: the first
/// steps of deserialising any type from CBOR, accepting both integer and
/// text keys.
pub fn normalized_cbor(data: &[u8]) -> (r: Result<CborTree, CborError>)
    ensures
        cbor_tree_parsed(data@) matches Ok(t) ==> (r matches Ok(n) && n@ == normalized(t)),
        r matches Ok(n) ==> keys_normal(n@),
        cbor_tree_parsed(data@) matches Err(m) ==> (r matches Err(e) && e@
            == CborErrorView::Serde(m)),
{
    match cbor_tree_from_slice(data) {
        Ok(t) => Ok(normalize_keys(&t)),
        Err(m) => Err(CborError::Serde(m)),
    }
}

} // verus!
