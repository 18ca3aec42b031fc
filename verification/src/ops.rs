//! Line-level edit scripts from `tate`: the line diff and the pairing of
//! delete/insert blocks into `Replace` rows, as values of this crate.

use vstd::prelude::*;

use crate::strs::strings_view;

verus! {

#[verifier::external_type_specification]
#[verifier::external_body]
pub struct ExTateOp(tate::inline::Op);

/// Kind of one edit operation. `Replace` only comes out of the pairing step.
#[derive(Debug, Clone, Copy, PartialEq, Eq, Structural)]
pub enum OpType {
    Equal,
    Delete,
    Insert,
    Replace,
}

/// A word-level inline segment of a `Replace` row, with its changed flag.
#[derive(Debug, Clone)]
pub struct Seg {
    pub text: String,
    pub changed: bool,
}

/// One edit operation between two line sequences: its kind, the positions of
/// its lines in the old and new sequences, their text, and for `Replace` the
/// word-level segments of both lines.
#[derive(Debug, Clone)]
pub struct LineOp {
    pub typ: OpType,
    pub a: usize,
    pub b: usize,
    pub old: String,
    pub new: String,
    pub old_segs: Vec<Seg>,
    pub new_segs: Vec<Seg>,
}

/// The mathematical value of an inline segment: its text and changed flag.
pub open spec fn segs_view(v: Seq<Seg>) -> Seq<(Seq<char>, bool)> {
    v.map_values(|g: Seg| (g.text@, g.changed))
}

/// The mathematical value of a [`LineOp`].
pub struct LineOpView {
    pub typ: OpType,
    pub a: nat,
    pub b: nat,
    pub old: Seq<char>,
    pub new: Seq<char>,
    pub old_segs: Seq<(Seq<char>, bool)>,
    pub new_segs: Seq<(Seq<char>, bool)>,
}

impl View for LineOp {
    type V = LineOpView;

    open spec fn view(&self) -> LineOpView {
        LineOpView {
            typ: self.typ,
            a: self.a as nat,
            b: self.b as nat,
            old: self.old@,
            new: self.new@,
            old_segs: segs_view(self.old_segs@),
            new_segs: segs_view(self.new_segs@),
        }
    }
}

/// The views of a list of operations.
pub open spec fn ops_view(v: Seq<LineOp>) -> Seq<LineOpView> {
    v.map_values(|o: LineOp| o@)
}

/// What a `tate` operation holds, as a value of this crate.
pub uninterp spec fn tate_op(o: tate::inline::Op) -> LineOpView;

/// The values of a list of `tate` operations.
pub open spec fn tate_ops(v: Seq<tate::inline::Op>) -> Seq<LineOpView> {
    v.map_values(|o: tate::inline::Op| tate_op(o))
}

/// The edit script that `tate::lines::diff` computes for two line sequences.
pub uninterp spec fn line_diff_spec(a: Seq<Seq<char>>, b: Seq<Seq<char>>) -> Seq<LineOpView>;

/// What `tate::inline::pair_replacements` makes of an edit script at the
/// default similarity threshold.
pub uninterp spec fn pair_spec(ops: Seq<LineOpView>) -> Seq<LineOpView>;

/// Whether the operation consumes a line of the old sequence.
pub open spec fn takes_old(t: OpType) -> bool {
    t == OpType::Equal || t == OpType::Delete || t == OpType::Replace
}

/// Whether the operation consumes a line of the new sequence.
pub open spec fn takes_new(t: OpType) -> bool {
    t == OpType::Equal || t == OpType::Insert || t == OpType::Replace
}

/// How many old lines the first `k` operations consume.
pub open spec fn old_count(ops: Seq<LineOpView>, k: int) -> nat
    decreases k,
{
    if k <= 0 {
        0
    } else {
        old_count(ops, k - 1) + if takes_old(ops[k - 1].typ) { 1nat } else { 0nat }
    }
}

/// How many new lines the first `k` operations consume.
pub open spec fn new_count(ops: Seq<LineOpView>, k: int) -> nat
    decreases k,
{
    if k <= 0 {
        0
    } else {
        new_count(ops, k - 1) + if takes_new(ops[k - 1].typ) { 1nat } else { 0nat }
    }
}

/// `ops` is an edit script from `a` to `b`: read in order, the operations
/// consume the old lines one by one and the new lines one by one. Each
/// operation points (0-based) at the lines it consumes and carries their
/// text; the side it does not consume is 0 and empty.
pub open spec fn edit_script(ops: Seq<LineOpView>, a: Seq<Seq<char>>, b: Seq<Seq<char>>) -> bool {
    &&& old_count(ops, ops.len() as int) == a.len()
    &&& new_count(ops, ops.len() as int) == b.len()
    &&& forall|k: int| 0 <= k < ops.len() ==> {
        let o = #[trigger] ops[k];
        &&& takes_old(o.typ) ==> o.a == old_count(ops, k) && o.old == a[o.a as int]
        &&& takes_new(o.typ) ==> o.b == new_count(ops, k) && o.new == b[o.b as int]
        &&& !takes_old(o.typ) ==> o.a == 0 && o.old == Seq::<char>::empty()
        &&& !takes_new(o.typ) ==> o.b == 0 && o.new == Seq::<char>::empty()
    }
}

/// No operation of the script is a `Replace`.
pub open spec fn no_replace(ops: Seq<LineOpView>) -> bool {
    forall|k: int| 0 <= k < ops.len() ==> (#[trigger] ops[k]).typ != OpType::Replace
}

/// Every operation of the script is `Equal`.
pub open spec fn all_equal(ops: Seq<LineOpView>) -> bool {
    forall|k: int| 0 <= k < ops.len() ==> (#[trigger] ops[k]).typ == OpType::Equal
}

/// How many operations of `ops` are of kind `t`.
pub open spec fn count_of(ops: Seq<LineOpView>, t: OpType) -> nat
    decreases ops.len(),
{
    if ops.len() == 0 {
        0
    } else {
        count_of(ops.drop_last(), t) + if ops.last().typ == t { 1nat } else { 0nat }
    }
}

/// `tate::lines::diff`: the edit script between two line sequences. Its
/// result is named. What its source shows is stated beside the name: it
/// emits only `Equal`, `Delete` and `Insert`; it is an edit script from the
/// old lines to the new ones with 0-based positions; on equal inputs the
/// common-prefix pass matches every line.
#[verifier::external_body]
fn tate_line_diff(a: &Vec<String>, b: &Vec<String>) -> (r: Vec<tate::inline::Op>)
    ensures
        tate_ops(r@) == line_diff_spec(strings_view(a@), strings_view(b@)),
        edit_script(tate_ops(r@), strings_view(a@), strings_view(b@)),
        no_replace(tate_ops(r@)),
        strings_view(a@) == strings_view(b@) ==> all_equal(tate_ops(r@)),
{
    tate::lines::diff(a, b)
}

/// `tate::inline::pair_replacements` at `DEFAULT_SIMILARITY`: merges
/// similar delete/insert pairs into `Replace` rows. Its result is named.
/// What its source shows is stated beside the name: a `Replace` takes the
/// old line of its delete and the new line of its insert, so an edit script
/// stays an edit script between the same sequences; a script without
/// deletes or inserts passes through unchanged.
#[verifier::external_body]
fn tate_pair(ops: Vec<tate::inline::Op>) -> (r: Vec<tate::inline::Op>)
    ensures
        tate_ops(r@) == pair_spec(tate_ops(ops@)),
        forall|a: Seq<Seq<char>>, b: Seq<Seq<char>>|
            edit_script(tate_ops(ops@), a, b) ==> #[trigger] edit_script(tate_ops(r@), a, b),
        all_equal(tate_ops(ops@)) ==> tate_ops(r@) == tate_ops(ops@),
{
    tate::inline::pair_replacements(ops, tate::inline::DEFAULT_SIMILARITY)
}

/// A `tate` operation converted to this crate's type, field by field.
#[verifier::external_body]
fn lib_op(o: &tate::inline::Op) -> (r: LineOp)
    ensures
        r@ == tate_op(*o),
{
    let typ = match o.typ {
        tate::inline::OpType::Equal => OpType::Equal,
        tate::inline::OpType::Delete => OpType::Delete,
        tate::inline::OpType::Insert => OpType::Insert,
        tate::inline::OpType::Replace => OpType::Replace,
    };
    let seg = |s: &tate::inline::Seg| Seg { text: s.text.clone(), changed: s.changed };
    let old_segs = o.old_segs.iter().map(seg).collect();
    let new_segs = o.new_segs.iter().map(seg).collect();
    LineOp { typ, a: o.a, b: o.b, old: o.old.clone(), new: o.new.clone(), old_segs, new_segs }
}

fn lib_ops(v: &Vec<tate::inline::Op>) -> (r: Vec<LineOp>)
    ensures
        ops_view(r@) == tate_ops(v@),
{
    let mut r: Vec<LineOp> = Vec::new();
    let mut i: usize = 0;
    while i < v.len()
        invariant
            i <= v@.len(),
            ops_view(r@) == tate_ops(v@.take(i as int)),
        decreases v@.len() - i,
    {
        let o = lib_op(&v[i]);
        let ghost prev = r@;
        r.push(o);
        assert(ops_view(r@) =~= ops_view(prev).push(o@));
        assert(tate_ops(v@.take(i as int + 1)) =~= tate_ops(v@.take(i as int)).push(tate_op(v@[i as int])));
        i += 1;
    }
    assert(v@.take(i as int) =~= v@);
    r
}

/// Raw line diff of two sequences: `Equal`, `Delete` and `Insert` operations.
pub fn diff_lines(a: &Vec<String>, b: &Vec<String>) -> (r: Vec<LineOp>)
    ensures
        ops_view(r@) == line_diff_spec(strings_view(a@), strings_view(b@)),
        edit_script(ops_view(r@), strings_view(a@), strings_view(b@)),
        no_replace(ops_view(r@)),
        strings_view(a@) == strings_view(b@) ==> all_equal(ops_view(r@)),
{
    let raw = tate_line_diff(a, b);
    lib_ops(&raw)
}

/// Line diff of two sequences with similar delete/insert pairs merged into
/// `Replace` operations.
pub fn paired_line_ops(a: &Vec<String>, b: &Vec<String>) -> (r: Vec<LineOp>)
    ensures
        ops_view(r@) == pair_spec(line_diff_spec(strings_view(a@), strings_view(b@))),
        edit_script(ops_view(r@), strings_view(a@), strings_view(b@)),
        strings_view(a@) == strings_view(b@) ==> all_equal(ops_view(r@)),
{
    let raw = tate_line_diff(a, b);
    let paired = tate_pair(raw);
    lib_ops(&paired)
}

/// In a script, the old lines consumed by the first `k` operations are its
/// `Equal`, `Delete` and `Replace` operations among them, and the new lines
/// its `Equal`, `Insert` and `Replace` operations.
pub proof fn lemma_counts(ops: Seq<LineOpView>, k: int)
    requires
        0 <= k <= ops.len(),
    ensures
        old_count(ops, k) == count_of(ops.take(k), OpType::Equal) + count_of(ops.take(k), OpType::Delete)
            + count_of(ops.take(k), OpType::Replace),
        new_count(ops, k) == count_of(ops.take(k), OpType::Equal) + count_of(ops.take(k), OpType::Insert)
            + count_of(ops.take(k), OpType::Replace),
    decreases k,
{
    if k > 0 {
        lemma_counts(ops, k - 1);
        assert(ops.take(k).drop_last() =~= ops.take(k - 1));
        assert(ops.take(k).last() == ops[k - 1]);
    }
}

/// A script that is all `Equal` has no other kind of operation.
pub proof fn lemma_all_equal_counts(ops: Seq<LineOpView>)
    requires
        all_equal(ops),
    ensures
        count_of(ops, OpType::Insert) == 0,
        count_of(ops, OpType::Delete) == 0,
        count_of(ops, OpType::Replace) == 0,
        count_of(ops, OpType::Equal) == ops.len(),
    decreases ops.len(),
{
    if ops.len() > 0 {
        assert(all_equal(ops.drop_last())) by {
            assert forall|k: int| 0 <= k < ops.drop_last().len() implies (#[trigger] ops.drop_last()[k]).typ == OpType::Equal by {
                assert(ops.drop_last()[k] == ops[k]);
            }
        }
        lemma_all_equal_counts(ops.drop_last());
        assert(ops.last() == ops[ops.len() - 1]);
    }
}

} // verus!

verus! {

proof fn lemma_counts_grow(ops: Seq<LineOpView>, i: int, j: int)
    requires
        0 <= i <= j <= ops.len(),
    ensures
        old_count(ops, i) <= old_count(ops, j),
        new_count(ops, i) <= new_count(ops, j),
    decreases j - i,
{
    if i < j {
        lemma_counts_grow(ops, i, j - 1);
    }
}

/// In an edit script from `a` to `b`, every position an operation names lies
/// within the sequence it reads.
pub proof fn lemma_script_positions(ops: Seq<LineOpView>, a: Seq<Seq<char>>, b: Seq<Seq<char>>)
    requires
        edit_script(ops, a, b),
    ensures
        forall|k: int| 0 <= k < ops.len() && takes_old((#[trigger] ops[k]).typ) ==> ops[k].a < a.len(),
        forall|k: int| 0 <= k < ops.len() && takes_new((#[trigger] ops[k]).typ) ==> ops[k].b < b.len(),
{
    assert forall|k: int| 0 <= k < ops.len() && takes_old((#[trigger] ops[k]).typ) implies ops[k].a < a.len() by {
        lemma_counts_grow(ops, k + 1, ops.len() as int);
    }
    assert forall|k: int| 0 <= k < ops.len() && takes_new((#[trigger] ops[k]).typ) implies ops[k].b < b.len() by {
        lemma_counts_grow(ops, k + 1, ops.len() as int);
    }
}

} // verus!
