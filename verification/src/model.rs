use vstd::prelude::*;
use vstd::relations::{sorted_by, total_ordering};
use crate::scanner::{
    candidate_kind, candidate_kind_of, file_name_for, file_name_of, file_name_on, CandidateFacts, CandidateKind, EntryStatus,
    Platform,
};
use crate::bytes::{bytes_equal, bytes_less, bytes_lt, lemma_bytes_lt_asymmetric, lemma_bytes_lt_irreflexive, lemma_bytes_lt_total, lemma_bytes_lt_transitive};

verus! {

broadcast use vstd::seq_lib::group_to_multiset_ensures;

/// What a binary entry holds: its command name, its full path (both as the
/// platform's raw bytes) and the position in the search list of the
/// directory it was found in.
#[verifier::ext_equal]
pub struct EntryView {
    pub name: Seq<u8>,
    pub path: Seq<u8>,
    pub path_index: usize,
}

/// One executable found while scanning a directory of the search list.
#[derive(Debug)]
pub struct BinaryEntry {
    name: Vec<u8>,
    path: Vec<u8>,
    path_index: usize,
}

impl View for BinaryEntry {
    type V = EntryView;

    closed spec fn view(&self) -> EntryView {
        EntryView { name: self.name@, path: self.path@, path_index: self.path_index }
    }
}

/// The views of a sequence of entries.
pub open spec fn entry_views(s: Seq<BinaryEntry>) -> Seq<EntryView> {
    s.map_values(|e: BinaryEntry| e@)
}

/// The order in which binaries are listed: by search-list position, then by
/// name, then by path (names and paths in byte order).
pub open spec fn entry_le(a: EntryView, b: EntryView) -> bool {
    ||| a.path_index < b.path_index
    ||| a.path_index == b.path_index && bytes_lt(a.name, b.name)
    ||| a.path_index == b.path_index && a.name == b.name && (bytes_lt(a.path, b.path) || a.path == b.path)
}

pub open spec fn entry_order() -> spec_fn(EntryView, EntryView) -> bool {
    |a: EntryView, b: EntryView| entry_le(a, b)
}

pub proof fn lemma_entry_le_total(a: EntryView, b: EntryView)
    ensures
        entry_le(a, b) || entry_le(b, a),
{
    lemma_bytes_lt_total(a.name, b.name);
    lemma_bytes_lt_total(a.path, b.path);
}

pub proof fn lemma_entry_le_antisymmetric(a: EntryView, b: EntryView)
    requires
        entry_le(a, b),
        entry_le(b, a),
    ensures
        a == b,
{
    if bytes_lt(a.name, b.name) {
        lemma_bytes_lt_asymmetric(a.name, b.name);
    }
    if bytes_lt(b.name, a.name) {
        lemma_bytes_lt_asymmetric(b.name, a.name);
    }
    if bytes_lt(a.path, b.path) {
        lemma_bytes_lt_asymmetric(a.path, b.path);
    }
    if bytes_lt(b.path, a.path) {
        lemma_bytes_lt_asymmetric(b.path, a.path);
    }
    lemma_bytes_lt_irreflexive(a.name);
    lemma_bytes_lt_irreflexive(a.path);
}

pub proof fn lemma_entry_le_transitive(a: EntryView, b: EntryView, c: EntryView)
    requires
        entry_le(a, b),
        entry_le(b, c),
    ensures
        entry_le(a, c),
{
    if a.path_index == b.path_index && b.path_index == c.path_index {
        if bytes_lt(a.name, b.name) && bytes_lt(b.name, c.name) {
            lemma_bytes_lt_transitive(a.name, b.name, c.name);
        }
        if bytes_lt(a.path, b.path) && bytes_lt(b.path, c.path) {
            lemma_bytes_lt_transitive(a.path, b.path, c.path);
        }
    }
}

pub proof fn lemma_entry_order_total()
    ensures
        total_ordering(entry_order()),
{
    let r = entry_order();
    assert forall|x: EntryView| #[trigger] r(x, x) by {
        lemma_bytes_lt_irreflexive(x.path);
    }
    assert forall|x: EntryView, y: EntryView| #[trigger] r(x, y) && #[trigger] r(y, x) implies x == y by {
        lemma_entry_le_antisymmetric(x, y);
    }
    assert forall|x: EntryView, y: EntryView, z: EntryView|
        #[trigger] r(x, y) && #[trigger] r(y, z) implies r(x, z) by {
        lemma_entry_le_transitive(x, y, z);
    }
    assert forall|x: EntryView, y: EntryView| #[trigger] r(x, y) || #[trigger] r(y, x) by {
        lemma_entry_le_total(x, y);
    }
}

/// Two sequences sorted by the listing order that hold the same entries are equal.
pub proof fn lemma_sorted_unique(a: Seq<EntryView>, b: Seq<EntryView>)
    requires
        sorted_by(a, entry_order()),
        sorted_by(b, entry_order()),
        a.to_multiset() == b.to_multiset(),
    ensures
        a == b,
    decreases a.len(),
{
    broadcast use vstd::seq_lib::to_multiset_remove, vstd::seq_lib::to_multiset_contains;
    vstd::seq_lib::to_multiset_len(a);
    vstd::seq_lib::to_multiset_len(b);
    if a.len() == 0 {
        assert(a =~= b);
    } else {
        assert(a.to_multiset().count(a[0]) > 0);
        assert(b.contains(a[0]));
        let j = choose|j: int| 0 <= j < b.len() && b[j] == a[0];
        if j > 0 {
            assert(entry_order()(b[0], b[j]));
        }
        assert(entry_le(b[0], a[0]));
        assert(b.to_multiset().count(b[0]) > 0);
        assert(a.contains(b[0]));
        let k = choose|k: int| 0 <= k < a.len() && a[k] == b[0];
        if k > 0 {
            assert(entry_order()(a[0], a[k]));
        }
        assert(entry_le(a[0], b[0]));
        lemma_entry_le_antisymmetric(a[0], b[0]);
        let ar = a.remove(0);
        let br = b.remove(0);
        assert(ar.to_multiset() == a.to_multiset().remove(a[0]));
        assert(br.to_multiset() == b.to_multiset().remove(b[0]));
        assert forall|i: int, j2: int| 0 <= i < j2 < ar.len() implies #[trigger] entry_order()(ar[i], ar[j2]) by {
            assert(entry_order()(a[i + 1], a[j2 + 1]));
        }
        assert forall|i: int, j2: int| 0 <= i < j2 < br.len() implies #[trigger] entry_order()(br[i], br[j2]) by {
            assert(entry_order()(b[i + 1], b[j2 + 1]));
        }
        lemma_sorted_unique(ar, br);
        assert(a =~= seq![a[0]] + ar);
        assert(b =~= seq![b[0]] + br);
    }
}

/// The entries listed in order, duplicates by path removed: an entry is kept
/// when no earlier entry has the same path.
pub open spec fn path_seen(s: Seq<EntryView>, path: Seq<u8>) -> bool {
    exists|j: int| 0 <= j < s.len() && s[j].path == path
}

pub open spec fn dedup_paths(s: Seq<EntryView>) -> Seq<EntryView>
    decreases s.len(),
{
    if s.len() == 0 {
        s
    } else if path_seen(s.drop_last(), s.last().path) {
        dedup_paths(s.drop_last())
    } else {
        dedup_paths(s.drop_last()).push(s.last())
    }
}

/// What `build_name_index` makes of the binaries: sorted into listing order,
/// then each path kept once.
pub open spec fn normalized_binaries(s: Seq<EntryView>) -> Seq<EntryView> {
    dedup_paths(s.sort_by(entry_order()))
}

impl BinaryEntry {
    /// Creates an entry for the executable `path`, named `name`, found in the
    /// directory at position `path_index` of the search list.
    pub fn new(name: Vec<u8>, path: Vec<u8>, path_index: usize) -> (entry: Self)
        ensures
            entry@ == (EntryView { name: name@, path: path@, path_index }),
    {
        BinaryEntry { name, path, path_index }
    }

    /// The command name.
    pub fn name(&self) -> (name: &[u8])
        ensures
            name@ == self@.name,
    {
        self.name.as_slice()
    }

    /// The full path of the executable.
    pub fn path(&self) -> (path: &[u8])
        ensures
            path@ == self@.path,
    {
        self.path.as_slice()
    }

    /// The position, in the search list, of the directory the entry was found in.
    pub fn path_index(&self) -> (index: usize)
        ensures
            index == self@.path_index,
    {
        self.path_index
    }

    /// A copy of the entry.
    pub fn copy(&self) -> (entry: Self)
        ensures
            entry@ == self@,
    {
        BinaryEntry { name: copy_bytes(&self.name), path: copy_bytes(&self.path), path_index: self.path_index }
    }
}

/// A copy of a byte string.
pub fn copy_bytes(v: &Vec<u8>) -> (r: Vec<u8>)
    ensures
        r@ == v@,
{
    let mut r: Vec<u8> = Vec::new();
    let mut i: usize = 0;
    while i < v.len()
        invariant
            i <= v@.len(),
            r@ == v@.take(i as int),
        decreases v@.len() - i,
    {
        r.push(v[i]);
        i = i + 1;
        assert(r@ =~= v@.take(i as int));
    }
    assert(v@.take(v@.len() as int) =~= v@);
    r
}

fn entry_precedes(a: &BinaryEntry, b: &BinaryEntry) -> (r: bool)
    ensures
        r == entry_le(a@, b@),
{
    if a.path_index != b.path_index {
        return a.path_index < b.path_index;
    }
    if bytes_less(a.name.as_slice(), b.name.as_slice()) {
        return true;
    }
    if !bytes_equal(a.name.as_slice(), b.name.as_slice()) {
        return false;
    }
    bytes_less(a.path.as_slice(), b.path.as_slice()) || bytes_equal(a.path.as_slice(), b.path.as_slice())
}

proof fn lemma_views_pop(s: Seq<BinaryEntry>)
    requires
        s.len() > 0,
    ensures
        entry_views(s.drop_last()).push(s.last()@) == entry_views(s),
{
    assert(entry_views(s.drop_last()).push(s.last()@) =~= entry_views(s));
}

/// Sorts entries into listing order.
fn sort_entries(v: Vec<BinaryEntry>) -> (r: Vec<BinaryEntry>)
    ensures
        entry_views(r@) == entry_views(v@).sort_by(entry_order()),
{
    let ghost orig = entry_views(v@);
    let mut rest = v;
    let mut out: Vec<BinaryEntry> = Vec::new();
    proof {
        lemma_entry_order_total();
        assert(entry_views(out@).to_multiset() =~= vstd::multiset::Multiset::empty());
    }
    while rest.len() > 0
        invariant
            total_ordering(entry_order()),
            sorted_by(entry_views(out@), entry_order()),
            entry_views(out@).to_multiset().add(entry_views(rest@).to_multiset()) == orig.to_multiset(),
        decreases rest@.len(),
    {
        let ghost before = rest@;
        let e = rest.pop().unwrap();
        proof {
            assert(rest@ == before.drop_last());
            lemma_views_pop(before);
            vstd::seq_lib::to_multiset_build(entry_views(rest@), e@);
        }
        let mut k: usize = 0;
        while k < out.len() && !entry_precedes(&e, &out[k])
            invariant
                k <= out@.len(),
                forall|j: int| 0 <= j < k ==> entry_le(out@[j]@, e@),
            decreases out@.len() - k,
        {
            proof {
                lemma_entry_le_total(e@, out@[k as int]@);
            }
            k = k + 1;
        }
        let ghost old_out = entry_views(out@);
        out.insert(k, e);
        proof {
            let nv = entry_views(out@);
            assert(nv =~= old_out.insert(k as int, e@));
            vstd::seq_lib::to_multiset_insert(old_out, k as int, e@);
            assert forall|i: int, j: int| 0 <= i < j < nv.len() implies #[trigger] entry_order()(nv[i], nv[j]) by {
                if i < k && j < k {
                    assert(entry_order()(old_out[i], old_out[j]));
                } else if i < k && j == k {
                } else if i < k && j > k {
                    assert(entry_order()(old_out[i], old_out[j - 1]));
                } else if i == k {
                    if j - 1 > k {
                        assert(entry_order()(old_out[k as int], old_out[j - 1]));
                        lemma_entry_le_transitive(e@, old_out[k as int], old_out[j - 1]);
                    }
                } else {
                    assert(entry_order()(old_out[i - 1], old_out[j - 1]));
                }
            }
        }
    }
    proof {
        broadcast use vstd::multiset::group_multiset_axioms;
        assert(entry_views(rest@) =~= Seq::<EntryView>::empty());
        assert(entry_views(rest@).to_multiset() =~= vstd::multiset::Multiset::empty());
        assert(entry_views(out@).to_multiset() =~= orig.to_multiset());
        orig.lemma_sort_by_ensures(entry_order());
        lemma_sorted_unique(entry_views(out@), orig.sort_by(entry_order()));
    }
    out
}

/// Removes every entry whose path an earlier entry already has.
fn dedup_entries(v: Vec<BinaryEntry>) -> (r: Vec<BinaryEntry>)
    ensures
        entry_views(r@) == dedup_paths(entry_views(v@)),
{
    let ghost orig = entry_views(v@);
    let mut rest = v;
    let mut tail: Vec<BinaryEntry> = Vec::new();
    assert(entry_views(tail@) =~= Seq::<EntryView>::empty());
    assert(dedup_paths(orig) =~= dedup_paths(entry_views(rest@)) + entry_views(tail@));
    while rest.len() > 0
        invariant
            dedup_paths(orig) == dedup_paths(entry_views(rest@)) + entry_views(tail@),
        decreases rest@.len(),
    {
        let ghost before = rest@;
        let e = rest.pop().unwrap();
        proof {
            assert(rest@ == before.drop_last());
            lemma_views_pop(before);
            assert(entry_views(before).drop_last() =~= entry_views(rest@));
        }
        let mut j: usize = 0;
        let mut seen = false;
        while j < rest.len()
            invariant
                j <= rest@.len(),
                !seen ==> forall|i: int| 0 <= i < j ==> rest@[i]@.path != e@.path,
                seen ==> path_seen(entry_views(rest@), e@.path),
            decreases rest@.len() - j,
        {
            if bytes_equal(rest[j].path.as_slice(), e.path.as_slice()) {
                assert(entry_views(rest@)[j as int].path == e@.path);
                seen = true;
            }
            j = j + 1;
        }
        proof {
            if !seen {
                assert forall|i: int| 0 <= i < entry_views(rest@).len() implies entry_views(rest@)[i].path != e@.path by {
                    assert(entry_views(rest@)[i] == rest@[i]@);
                }
            }
        }
        if !seen {
            let ghost old_tail = entry_views(tail@);
            tail.insert(0, e);
            assert(entry_views(tail@) =~= seq![e@] + old_tail);
            assert(dedup_paths(entry_views(rest@)).push(e@) + old_tail =~= dedup_paths(entry_views(rest@)) + entry_views(tail@));
        }
    }
    assert(entry_views(rest@) =~= Seq::<EntryView>::empty());
    assert(dedup_paths(orig) =~= entry_views(tail@));
    tail
}

/// All binaries of one command name, in listing order.
#[verifier::ext_equal]
pub struct GroupView {
    pub name: Seq<u8>,
    pub entries: Seq<EntryView>,
}

/// The binaries that share one command name.
#[derive(Debug)]
pub struct NameGroup {
    name: Vec<u8>,
    entries: Vec<BinaryEntry>,
}

impl View for NameGroup {
    type V = GroupView;

    closed spec fn view(&self) -> GroupView {
        GroupView { name: self.name@, entries: entry_views(self.entries@) }
    }
}

impl NameGroup {
    /// The command name shared by the group.
    pub fn name(&self) -> (name: &[u8])
        ensures
            name@ == self@.name,
    {
        self.name.as_slice()
    }

    /// The binaries of the group, the active one first.
    pub fn entries(&self) -> (entries: &[BinaryEntry])
        ensures
            entry_views(entries@) == self@.entries,
    {
        self.entries.as_slice()
    }
}

pub open spec fn group_views(s: Seq<NameGroup>) -> Seq<GroupView> {
    s.map_values(|g: NameGroup| g@)
}

/// An index of binaries by name: names strictly increasing, every group
/// non-empty and holding only entries of its own name.
pub open spec fn groups_wf(g: Seq<GroupView>) -> bool {
    &&& forall|i: int, j: int| 0 <= i < j < g.len() ==> bytes_lt(#[trigger] g[i].name, #[trigger] g[j].name)
    &&& forall|i: int| 0 <= i < g.len() ==> (#[trigger] g[i]).entries.len() > 0
    &&& forall|i: int, k: int| 0 <= i < g.len() && 0 <= k < g[i].entries.len() ==> (#[trigger] g[i].entries[k]).name == g[i].name
}

/// Where a name stands among the names of a sorted index: the number of
/// groups whose name comes before it.
pub open spec fn name_position(g: Seq<GroupView>, name: Seq<u8>) -> nat
    decreases g.len(),
{
    if g.len() == 0 {
        0
    } else if bytes_lt(g[0].name, name) {
        1 + name_position(g.drop_first(), name)
    } else {
        0
    }
}

/// The index after one more entry: appended to the group of its name, or
/// put in a new group at the place of its name.
pub open spec fn index_entry(g: Seq<GroupView>, e: EntryView) -> Seq<GroupView> {
    let k = name_position(g, e.name) as int;
    if k < g.len() && g[k].name == e.name {
        g.update(k, GroupView { name: e.name, entries: g[k].entries.push(e) })
    } else {
        g.insert(k, GroupView { name: e.name, entries: seq![e] })
    }
}

/// The index after adding entries one after another.
pub open spec fn index_entries(g: Seq<GroupView>, es: Seq<EntryView>) -> Seq<GroupView>
    decreases es.len(),
{
    if es.len() == 0 {
        g
    } else {
        index_entry(index_entries(g, es.drop_last()), es.last())
    }
}

/// The number of entries an index holds.
pub open spec fn index_size(g: Seq<GroupView>) -> nat
    decreases g.len(),
{
    if g.len() == 0 {
        0
    } else {
        index_size(g.drop_last()) + g.last().entries.len()
    }
}

pub proof fn lemma_name_position(g: Seq<GroupView>, name: Seq<u8>)
    requires
        forall|i: int, j: int| 0 <= i < j < g.len() ==> bytes_lt(#[trigger] g[i].name, #[trigger] g[j].name),
    ensures
        name_position(g, name) <= g.len(),
        forall|j: int| 0 <= j < name_position(g, name) ==> bytes_lt(#[trigger] g[j].name, name),
        forall|j: int| name_position(g, name) <= j < g.len() ==> !bytes_lt(#[trigger] g[j].name, name),
    decreases g.len(),
{
    if g.len() > 0 {
        let t = g.drop_first();
        assert forall|i: int, j: int| 0 <= i < j < t.len() implies bytes_lt(#[trigger] t[i].name, #[trigger] t[j].name) by {
            assert(bytes_lt(g[i + 1].name, g[j + 1].name));
        }
        lemma_name_position(t, name);
        if bytes_lt(g[0].name, name) {
            assert forall|j: int| 0 <= j < name_position(g, name) implies bytes_lt(#[trigger] g[j].name, name) by {
                if j > 0 {
                    assert(g[j] == t[j - 1]);
                }
            }
            assert forall|j: int| name_position(g, name) <= j < g.len() implies !bytes_lt(#[trigger] g[j].name, name) by {
                assert(g[j] == t[j - 1]);
            }
        } else {
            assert forall|j: int| 0 <= j < g.len() implies !bytes_lt(#[trigger] g[j].name, name) by {
                if j > 0 && bytes_lt(g[j].name, name) {
                    assert(bytes_lt(g[0].name, g[j].name));
                    lemma_bytes_lt_transitive(g[0].name, g[j].name, name);
                }
            }
        }
    }
}

pub proof fn lemma_index_size_update(g: Seq<GroupView>, k: int, ng: GroupView)
    requires
        0 <= k < g.len(),
    ensures
        index_size(g.update(k, ng)) == index_size(g) - g[k].entries.len() + ng.entries.len(),
    decreases g.len(),
{
    let u = g.update(k, ng);
    if k == g.len() - 1 {
        assert(u.drop_last() =~= g.drop_last());
    } else {
        assert(u.drop_last() =~= g.drop_last().update(k, ng));
        lemma_index_size_update(g.drop_last(), k, ng);
    }
}

pub proof fn lemma_index_size_insert(g: Seq<GroupView>, k: int, ng: GroupView)
    requires
        0 <= k <= g.len(),
    ensures
        index_size(g.insert(k, ng)) == index_size(g) + ng.entries.len(),
    decreases g.len(),
{
    let u = g.insert(k, ng);
    if k == g.len() {
        assert(u.drop_last() =~= g);
    } else {
        assert(u.drop_last() =~= g.drop_last().insert(k, ng));
        lemma_index_size_insert(g.drop_last(), k, ng);
    }
}

/// Adding one entry keeps the index well formed and grows it by one.
pub proof fn lemma_index_entry(g: Seq<GroupView>, e: EntryView)
    requires
        groups_wf(g),
    ensures
        groups_wf(index_entry(g, e)),
        index_size(index_entry(g, e)) == index_size(g) + 1,
{
    lemma_name_position(g, e.name);
    let k = name_position(g, e.name) as int;
    let r = index_entry(g, e);
    if k < g.len() && g[k].name == e.name {
        let ng = GroupView { name: e.name, entries: g[k].entries.push(e) };
        lemma_index_size_update(g, k, ng);
        assert forall|i: int, j: int| 0 <= i < j < r.len() implies bytes_lt(#[trigger] r[i].name, #[trigger] r[j].name) by {
            assert(bytes_lt(g[i].name, g[j].name));
        }
        assert forall|i: int, m: int| 0 <= i < r.len() && 0 <= m < r[i].entries.len() implies (#[trigger] r[i].entries[m]).name == r[i].name by {
            if i == k && m < g[k].entries.len() {
                assert(g[k].entries[m].name == g[k].name);
            }
        }
    } else {
        let ng = GroupView { name: e.name, entries: seq![e] };
        lemma_index_size_insert(g, k, ng);
        if k < g.len() {
            lemma_bytes_lt_total(g[k].name, e.name);
        }
        assert forall|i: int, j: int| 0 <= i < j < r.len() implies bytes_lt(#[trigger] r[i].name, #[trigger] r[j].name) by {
            if j < k {
                assert(bytes_lt(g[i].name, g[j].name));
            } else if j == k {
            } else if i < k {
                assert(bytes_lt(g[i].name, e.name));
                assert(bytes_lt(e.name, g[k].name));
                if j - 1 > k {
                    assert(bytes_lt(g[k].name, g[j - 1].name));
                    lemma_bytes_lt_transitive(e.name, g[k].name, g[j - 1].name);
                }
                lemma_bytes_lt_transitive(g[i].name, e.name, g[j - 1].name);
            } else if i == k {
                if j - 1 > k {
                    assert(bytes_lt(g[k].name, g[j - 1].name));
                    lemma_bytes_lt_transitive(e.name, g[k].name, g[j - 1].name);
                }
            } else {
                assert(bytes_lt(g[i - 1].name, g[j - 1].name));
            }
        }
        assert forall|i: int, m: int| 0 <= i < r.len() && 0 <= m < r[i].entries.len() implies (#[trigger] r[i].entries[m]).name == r[i].name by {
            if i < k {
                assert(g[i].entries[m].name == g[i].name);
            } else if i > k {
                assert(g[i - 1].entries[m].name == g[i - 1].name);
            }
        }
        assert forall|i: int| 0 <= i < r.len() implies (#[trigger] r[i]).entries.len() > 0 by {
            if i < k {
                assert(g[i].entries.len() > 0);
            } else if i > k {
                assert(g[i - 1].entries.len() > 0);
            }
        }
    }
}

proof fn lemma_group_views_insert(s: Seq<NameGroup>, k: int, g: NameGroup)
    requires
        0 <= k <= s.len(),
    ensures
        group_views(s.insert(k, g)) == group_views(s).insert(k, g@),
{
    assert(group_views(s.insert(k, g)) =~= group_views(s).insert(k, g@));
}

/// The place of a name among the groups of a well-formed index.
fn find_name(groups: &Vec<NameGroup>, name: &[u8]) -> (k: usize)
    requires
        groups_wf(group_views(groups@)),
    ensures
        k == name_position(group_views(groups@), name@),
{
    let ghost g = group_views(groups@);
    proof {
        lemma_name_position(g, name@);
    }
    let mut k: usize = 0;
    while k < groups.len() && bytes_less(groups[k].name.as_slice(), name)
        invariant
            g == group_views(groups@),
            k <= name_position(g, name@),
            name_position(g, name@) <= g.len(),
            forall|j: int| 0 <= j < name_position(g, name@) ==> bytes_lt(#[trigger] g[j].name, name@),
            forall|j: int| name_position(g, name@) <= j < g.len() ==> !bytes_lt(#[trigger] g[j].name, name@),
        decreases groups@.len() - k,
    {
        assert(g[k as int] == groups@[k as int]@);
        assert(bytes_lt(g[k as int].name, name@));
        k = k + 1;
    }
    proof {
        if k < groups@.len() {
            assert(g[k as int] == groups@[k as int]@);
            assert(!bytes_lt(g[k as int].name, name@));
        }
    }
    k
}

/// Adds one entry to an index kept as a vector of groups.
fn add_to_index(groups: &mut Vec<NameGroup>, e: BinaryEntry)
    requires
        groups_wf(group_views(old(groups)@)),
    ensures
        group_views(final(groups)@) == index_entry(group_views(old(groups)@), e@),
{
    let ghost g = group_views(groups@);
    let k = find_name(groups, e.name.as_slice());
    proof {
        lemma_name_position(g, e@.name);
        if k < groups@.len() {
            assert(g[k as int] == groups@[k as int]@);
        }
    }
    if k < groups.len() && bytes_equal(groups[k].name.as_slice(), e.name.as_slice()) {
        let mut group = groups.remove(k);
        let ghost removed = groups@;
        let ghost old_entries = entry_views(group.entries@);
        group.entries.push(e);
        assert(entry_views(group.entries@) =~= old_entries.push(e@));
        groups.insert(k, group);
        proof {
            assert(groups@ == removed.insert(k as int, group));
            assert(group_views(groups@) =~= g.update(k as int, group@));
        }
    } else {
        let name = copy_bytes(&e.name);
        let mut entries: Vec<BinaryEntry> = Vec::new();
        entries.push(e);
        let group = NameGroup { name, entries };
        assert(entry_views(group.entries@) =~= seq![e@]);
        let ghost before = groups@;
        groups.insert(k, group);
        proof {
            lemma_group_views_insert(before, k as int, group);
        }
    }
}

/// The byte strings held by a vector of byte strings.
pub open spec fn byte_strings(s: Seq<Vec<u8>>) -> Seq<Seq<u8>> {
    s.map_values(|v: Vec<u8>| v@)
}

/// The number of groups with more than one binary.
pub open spec fn duplicate_count(g: Seq<GroupView>) -> nat
    decreases g.len(),
{
    if g.len() == 0 {
        0
    } else if g.last().entries.len() > 1 {
        duplicate_count(g.drop_last()) + 1
    } else {
        duplicate_count(g.drop_last())
    }
}

/// The number of binaries hidden behind an earlier one of the same name.
pub open spec fn shadowed_count(g: Seq<GroupView>) -> nat
    decreases g.len(),
{
    if g.len() == 0 {
        0
    } else {
        shadowed_count(g.drop_last()) + if g.last().entries.len() > 0 { (g.last().entries.len() - 1) as nat } else { 0 }
    }
}

/// The groups with more than one binary, in name order.
pub open spec fn duplicate_groups_of(g: Seq<GroupView>) -> Seq<GroupView>
    decreases g.len(),
{
    if g.len() == 0 {
        g
    } else if g.last().entries.len() > 1 {
        duplicate_groups_of(g.drop_last()).push(g.last())
    } else {
        duplicate_groups_of(g.drop_last())
    }
}

pub proof fn lemma_duplicate_groups_big(g: Seq<GroupView>)
    ensures
        forall|i: int| 0 <= i < duplicate_groups_of(g).len() ==> (#[trigger] duplicate_groups_of(g)[i]).entries.len() > 1,
        duplicate_groups_of(g).len() == duplicate_count(g),
    decreases g.len(),
{
    if g.len() > 0 {
        lemma_duplicate_groups_big(g.drop_last());
    }
}

/// The binaries indexed under a name, if any.
pub open spec fn lookup(g: Seq<GroupView>, name: Seq<u8>) -> Option<Seq<EntryView>> {
    let k = name_position(g, name) as int;
    if k < g.len() && g[k].name == name {
        Some(g[k].entries)
    } else {
        None
    }
}

/// The views of the binaries a lookup found, if any.
pub open spec fn found_views(found: Option<&[BinaryEntry]>) -> Option<Seq<EntryView>> {
    match found {
        Some(m) => Some(entry_views(m@)),
        None => None,
    }
}

/// What a scan found.
#[verifier::ext_equal]
pub struct ScanView {
    pub path_entries_total: usize,
    pub existing_dirs: usize,
    pub empty_path_entries: usize,
    pub missing_entries: Seq<Seq<u8>>,
    pub non_dir_entries: Seq<Seq<u8>>,
    pub unreadable_entries: Seq<Seq<u8>>,
    pub broken_symlinks: Seq<Seq<u8>>,
    pub binaries: Seq<EntryView>,
    pub by_name: Seq<GroupView>,
}

impl ScanView {
    /// The index is well formed and its size fits a machine word.
    pub open spec fn wf(self) -> bool {
        &&& groups_wf(self.by_name)
        &&& index_size(self.by_name) <= usize::MAX
    }

    /// A scan of a search list with the given number of entries, of which
    /// the given number are empty, before any entry has been looked at.
    pub open spec fn started(path_entries_total: usize, empty_path_entries: usize) -> ScanView {
        ScanView {
            path_entries_total,
            existing_dirs: 0,
            empty_path_entries,
            missing_entries: Seq::empty(),
            non_dir_entries: Seq::empty(),
            unreadable_entries: Seq::empty(),
            broken_symlinks: Seq::empty(),
            binaries: Seq::empty(),
            by_name: Seq::empty(),
        }
    }
}

/// The result of scanning the directories of a search list for executables.
#[derive(Debug)]
pub struct ScanResult {
    path_entries_total: usize,
    existing_dirs: usize,
    empty_path_entries: usize,
    missing_entries: Vec<Vec<u8>>,
    non_dir_entries: Vec<Vec<u8>>,
    unreadable_entries: Vec<Vec<u8>>,
    broken_symlinks: Vec<Vec<u8>>,
    binaries: Vec<BinaryEntry>,
    by_name: Vec<NameGroup>,
}

impl View for ScanResult {
    type V = ScanView;

    closed spec fn view(&self) -> ScanView {
        ScanView {
            path_entries_total: self.path_entries_total,
            existing_dirs: self.existing_dirs,
            empty_path_entries: self.empty_path_entries,
            missing_entries: byte_strings(self.missing_entries@),
            non_dir_entries: byte_strings(self.non_dir_entries@),
            unreadable_entries: byte_strings(self.unreadable_entries@),
            broken_symlinks: byte_strings(self.broken_symlinks@),
            binaries: entry_views(self.binaries@),
            by_name: group_views(self.by_name@),
        }
    }
}

impl Default for ScanResult {
    fn default() -> (scan: Self)
        ensures
            scan@ == ScanView::started(0, 0),
            scan@.wf(),
    {
        ScanResult::start(0, 0)
    }
}

proof fn lemma_shadowed_le_size(g: Seq<GroupView>)
    ensures
        shadowed_count(g) <= index_size(g),
        duplicate_count(g) <= g.len(),
    decreases g.len(),
{
    if g.len() > 0 {
        lemma_shadowed_le_size(g.drop_last());
    }
}

proof fn lemma_size_prefix(g: Seq<GroupView>, i: int)
    requires
        0 <= i <= g.len(),
    ensures
        index_size(g.take(i)) <= index_size(g),
    decreases g.len(),
{
    if i < g.len() {
        assert(g.take(i) =~= g.drop_last().take(i));
        lemma_size_prefix(g.drop_last(), i);
    } else {
        assert(g.take(i) =~= g);
    }
}

impl ScanResult {
    /// A scan of a search list with `path_entries_total` entries, of which
    /// `empty_path_entries` are empty, before any entry has been looked at.
    pub fn start(path_entries_total: usize, empty_path_entries: usize) -> (scan: Self)
        ensures
            scan@ == ScanView::started(path_entries_total, empty_path_entries),
            scan@.wf(),
    {
        let scan = ScanResult {
            path_entries_total,
            existing_dirs: 0,
            empty_path_entries,
            missing_entries: Vec::new(),
            non_dir_entries: Vec::new(),
            unreadable_entries: Vec::new(),
            broken_symlinks: Vec::new(),
            binaries: Vec::new(),
            by_name: Vec::new(),
        };
        assert(scan@ =~= ScanView::started(path_entries_total, empty_path_entries));
        scan
    }

    /// The number of entries in the search list.
    pub fn path_entries_total(&self) -> (n: usize)
        ensures
            n == self@.path_entries_total,
    {
        self.path_entries_total
    }

    /// The number of entries that named an existing directory.
    pub fn existing_dirs(&self) -> (n: usize)
        ensures
            n == self@.existing_dirs,
    {
        self.existing_dirs
    }

    /// The number of empty entries in the search list.
    pub fn empty_path_entries(&self) -> (n: usize)
        ensures
            n == self@.empty_path_entries,
    {
        self.empty_path_entries
    }

    /// Entries that name nothing that exists.
    pub fn missing_entries(&self) -> (entries: &[Vec<u8>])
        ensures
            byte_strings(entries@) == self@.missing_entries,
    {
        self.missing_entries.as_slice()
    }

    /// Entries that exist but are not directories.
    pub fn non_dir_entries(&self) -> (entries: &[Vec<u8>])
        ensures
            byte_strings(entries@) == self@.non_dir_entries,
    {
        self.non_dir_entries.as_slice()
    }

    /// Directories that could not be read.
    pub fn unreadable_entries(&self) -> (entries: &[Vec<u8>])
        ensures
            byte_strings(entries@) == self@.unreadable_entries,
    {
        self.unreadable_entries.as_slice()
    }

    /// Symbolic links whose target does not exist.
    pub fn broken_symlinks(&self) -> (links: &[Vec<u8>])
        ensures
            byte_strings(links@) == self@.broken_symlinks,
    {
        self.broken_symlinks.as_slice()
    }

    /// The executables found, in listing order once the index is built.
    pub fn binaries(&self) -> (binaries: &[BinaryEntry])
        ensures
            entry_views(binaries@) == self@.binaries,
    {
        self.binaries.as_slice()
    }

    /// The number of distinct command names in the index.
    pub fn unique_command_count(&self) -> (n: usize)
        ensures
            n == self@.by_name.len(),
    {
        self.by_name.len()
    }

    /// The number of command names that more than one binary provides.
    pub fn duplicate_name_count(&self) -> (n: usize)
        requires
            self@.wf(),
        ensures
            n == duplicate_count(self@.by_name),
    {
        let ghost g = self@.by_name;
        let mut n: usize = 0;
        let mut i: usize = 0;
        while i < self.by_name.len()
            invariant
                g == group_views(self.by_name@),
                i <= g.len(),
                n == duplicate_count(g.take(i as int)),
                n <= i,
            decreases g.len() - i,
        {
            assert(g.take(i + 1).drop_last() =~= g.take(i as int));
            assert(g[i as int] == self.by_name@[i as int]@);
            if self.by_name[i].entries.len() > 1 {
                n = n + 1;
            }
            i = i + 1;
        }
        assert(g.take(i as int) =~= g);
        n
    }

    /// The number of binaries hidden behind an earlier binary of the same name.
    pub fn shadowed_binary_count(&self) -> (n: usize)
        requires
            self@.wf(),
        ensures
            n == shadowed_count(self@.by_name),
    {
        let ghost g = self@.by_name;
        let mut n: usize = 0;
        let mut i: usize = 0;
        while i < self.by_name.len()
            invariant
                g == group_views(self.by_name@),
                self@.wf(),
                i <= g.len(),
                n == shadowed_count(g.take(i as int)),
            decreases g.len() - i,
        {
            let ghost next = g.take(i + 1);
            assert(next.drop_last() =~= g.take(i as int));
            assert(g[i as int] == self.by_name@[i as int]@);
            proof {
                lemma_shadowed_le_size(next);
                lemma_size_prefix(g, i + 1);
                assert(g[i as int].entries.len() > 0);
            }
            n = n + (self.by_name[i].entries.len() - 1);
            i = i + 1;
        }
        assert(g.take(i as int) =~= g);
        n
    }

    /// The binaries of a command name, the active one first.
    pub fn command_matches(&self, command: &[u8]) -> (found: Option<&[BinaryEntry]>)
        requires
            self@.wf(),
        ensures
            found_views(found) == lookup(self@.by_name, command@),
    {
        let k = find_name(&self.by_name, command);
        if k < self.by_name.len() && bytes_equal(self.by_name[k].name.as_slice(), command) {
            assert(self@.by_name[k as int] == self.by_name@[k as int]@);
            Some(self.by_name[k].entries.as_slice())
        } else {
            proof {
                if k < self.by_name@.len() {
                    assert(self@.by_name[k as int] == self.by_name@[k as int]@);
                }
            }
            None
        }
    }

    /// The groups of command names that more than one binary provides, in name order.
    pub fn duplicate_groups(&self) -> (groups: Vec<&NameGroup>)
        ensures
            groups@.map_values(|g: &NameGroup| g@) == duplicate_groups_of(self@.by_name),
    {
        let ghost g = self@.by_name;
        let mut groups: Vec<&NameGroup> = Vec::new();
        let mut i: usize = 0;
        while i < self.by_name.len()
            invariant
                g == group_views(self.by_name@),
                i <= g.len(),
                groups@.map_values(|x: &NameGroup| x@) == duplicate_groups_of(g.take(i as int)),
            decreases g.len() - i,
        {
            assert(g.take(i + 1).drop_last() =~= g.take(i as int));
            assert(g[i as int] == self.by_name@[i as int]@);
            let ghost before = groups@;
            if self.by_name[i].entries.len() > 1 {
                groups.push(&self.by_name[i]);
                assert(groups@.map_values(|x: &NameGroup| x@) =~= before.map_values(|x: &NameGroup| x@).push(g[i as int]));
            }
            i = i + 1;
        }
        assert(g.take(i as int) =~= g);
        groups
    }

    /// Records what was found at one entry of the search list: missing and
    /// non-directory entries are listed, every directory is counted, and a
    /// directory that cannot be listed is listed as unreadable.
    pub fn record_entry(&mut self, entry: Vec<u8>, status: EntryStatus)
        requires
            status == EntryStatus::Unreadable || status == EntryStatus::Readable ==> old(self)@.existing_dirs < usize::MAX,
        ensures
            final(self)@ == match status {
                EntryStatus::Missing => (ScanView { missing_entries: old(self)@.missing_entries.push(entry@), ..old(self)@ }),
                EntryStatus::NotDirectory => (ScanView { non_dir_entries: old(self)@.non_dir_entries.push(entry@), ..old(self)@ }),
                EntryStatus::Unreadable => (ScanView {
                    existing_dirs: (old(self)@.existing_dirs + 1) as usize,
                    unreadable_entries: old(self)@.unreadable_entries.push(entry@),
                    ..old(self)@
                }),
                EntryStatus::Readable => (ScanView { existing_dirs: (old(self)@.existing_dirs + 1) as usize, ..old(self)@ }),
            },
    {
        let ghost start = self@;
        match status {
            EntryStatus::Missing => {
                let ghost before = self.missing_entries@;
                self.missing_entries.push(entry);
                assert(byte_strings(self.missing_entries@) =~= byte_strings(before).push(entry@));
            },
            EntryStatus::NotDirectory => {
                let ghost before = self.non_dir_entries@;
                self.non_dir_entries.push(entry);
                assert(byte_strings(self.non_dir_entries@) =~= byte_strings(before).push(entry@));
            },
            EntryStatus::Unreadable => {
                self.existing_dirs = self.existing_dirs + 1;
                let ghost before = self.unreadable_entries@;
                self.unreadable_entries.push(entry);
                assert(byte_strings(self.unreadable_entries@) =~= byte_strings(before).push(entry@));
            },
            EntryStatus::Readable => {
                self.existing_dirs = self.existing_dirs + 1;
            },
        }
        assert(self@ =~= match status {
            EntryStatus::Missing => (ScanView { missing_entries: start.missing_entries.push(entry@), ..start }),
            EntryStatus::NotDirectory => (ScanView { non_dir_entries: start.non_dir_entries.push(entry@), ..start }),
            EntryStatus::Unreadable => (ScanView {
                existing_dirs: (start.existing_dirs + 1) as usize,
                unreadable_entries: start.unreadable_entries.push(entry@),
                ..start
            }),
            EntryStatus::Readable => (ScanView { existing_dirs: (start.existing_dirs + 1) as usize, ..start }),
        });
    }

    /// Records one item of a listed directory: a broken link is listed, an
    /// executable regular file with a file name becomes a binary named by it,
    /// and anything else is left out.
    pub fn record_candidate(&mut self, candidate: Vec<u8>, path_index: usize, facts: CandidateFacts)
        ensures
            final(self)@ == match candidate_kind_of(facts) {
                CandidateKind::BrokenSymlink => (ScanView { broken_symlinks: old(self)@.broken_symlinks.push(candidate@), ..old(self)@ }),
                CandidateKind::Executable => match file_name_of(candidate@) {
                    Some(name) => (ScanView {
                        binaries: old(self)@.binaries.push(EntryView { name, path: candidate@, path_index }),
                        ..old(self)@
                    }),
                    None => old(self)@,
                },
                CandidateKind::Skipped => old(self)@,
            },
    {
        self.record_candidate_on(Platform::Unix, candidate, path_index, facts);
    }

    /// Records one item of a listed directory, its file name read as the
    /// platform reads paths.
    pub fn record_candidate_on(&mut self, platform: Platform, candidate: Vec<u8>, path_index: usize, facts: CandidateFacts)
        ensures
            final(self)@ == match candidate_kind_of(facts) {
                CandidateKind::BrokenSymlink => (ScanView { broken_symlinks: old(self)@.broken_symlinks.push(candidate@), ..old(self)@ }),
                CandidateKind::Executable => match file_name_on(platform, candidate@) {
                    Some(name) => (ScanView {
                        binaries: old(self)@.binaries.push(EntryView { name, path: candidate@, path_index }),
                        ..old(self)@
                    }),
                    None => old(self)@,
                },
                CandidateKind::Skipped => old(self)@,
            },
    {
        match candidate_kind(facts) {
            CandidateKind::BrokenSymlink => {
                let ghost before = self.broken_symlinks@;
                self.broken_symlinks.push(candidate);
                assert(byte_strings(self.broken_symlinks@) =~= byte_strings(before).push(candidate@));
                assert(self@ =~= (ScanView { broken_symlinks: old(self)@.broken_symlinks.push(candidate@), ..old(self)@ }));
            },
            CandidateKind::Executable => {
                match file_name_for(platform, candidate.as_slice()) {
                    Some(name) => self.record_binary(BinaryEntry::new(name, candidate, path_index)),
                    None => {},
                }
            },
            CandidateKind::Skipped => {},
        }
    }

    /// Adds a binary; the index is brought up to date by `build_name_index`.
    pub fn record_binary(&mut self, entry: BinaryEntry)
        ensures
            final(self)@ == (ScanView { binaries: old(self)@.binaries.push(entry@), ..old(self)@ }),
    {
        let ghost before = self.binaries@;
        self.binaries.push(entry);
        assert(entry_views(self.binaries@) =~= entry_views(before).push(entry@));
        assert(self@ =~= (ScanView { binaries: old(self)@.binaries.push(entry@), ..old(self)@ }));
    }

    /// Puts the binaries in listing order, keeps each path once, and adds
    /// them to the index of binaries by name.
    pub fn build_name_index(&mut self)
        requires
            old(self)@.wf(),
            index_size(old(self)@.by_name) + old(self)@.binaries.len() <= usize::MAX,
        ensures
            final(self)@ == (ScanView {
                binaries: normalized_binaries(old(self)@.binaries),
                by_name: index_entries(old(self)@.by_name, normalized_binaries(old(self)@.binaries)),
                ..old(self)@
            }),
            final(self)@.wf(),
    {
        let ghost start = self@;
        let mut taken: Vec<BinaryEntry> = Vec::new();
        std::mem::swap(&mut taken, &mut self.binaries);
        let sorted = sort_entries(taken);
        proof {
            lemma_entry_order_total();
            start.binaries.lemma_sort_by_ensures(entry_order());
            vstd::seq_lib::to_multiset_len(start.binaries);
            vstd::seq_lib::to_multiset_len(start.binaries.sort_by(entry_order()));
            lemma_dedup_len(entry_views(sorted@));
        }
        let normalized = dedup_entries(sorted);
        let mut groups: Vec<NameGroup> = Vec::new();
        std::mem::swap(&mut groups, &mut self.by_name);
        let ghost nb = entry_views(normalized@);
        let mut i: usize = 0;
        assert(nb.take(0) =~= Seq::<EntryView>::empty());
        while i < normalized.len()
            invariant
                nb == entry_views(normalized@),
                nb == normalized_binaries(start.binaries),
                nb.len() <= start.binaries.len(),
                i <= nb.len(),
                group_views(groups@) == index_entries(start.by_name, nb.take(i as int)),
                groups_wf(group_views(groups@)),
                index_size(group_views(groups@)) == index_size(start.by_name) + i,
                index_size(start.by_name) + start.binaries.len() <= usize::MAX,
            decreases nb.len() - i,
        {
            assert(nb.take(i + 1).drop_last() =~= nb.take(i as int));
            assert(nb[i as int] == normalized@[i as int]@);
            proof {
                lemma_index_entry(group_views(groups@), nb[i as int]);
            }
            add_to_index(&mut groups, normalized[i].copy());
            i = i + 1;
        }
        assert(nb.take(i as int) =~= nb);
        self.binaries = normalized;
        self.by_name = groups;
        assert(self@ =~= (ScanView {
            binaries: normalized_binaries(start.binaries),
            by_name: index_entries(start.by_name, normalized_binaries(start.binaries)),
            ..start
        }));
    }
}

proof fn lemma_dedup_len(s: Seq<EntryView>)
    ensures
        dedup_paths(s).len() <= s.len(),
    decreases s.len(),
{
    if s.len() > 0 {
        lemma_dedup_len(s.drop_last());
    }
}

/// The entries of a given name, in order.
pub open spec fn named(bs: Seq<EntryView>, n: Seq<u8>) -> Seq<EntryView>
    decreases bs.len(),
{
    if bs.len() == 0 {
        bs
    } else if bs.last().name == n {
        named(bs.drop_last(), n).push(bs.last())
    } else {
        named(bs.drop_last(), n)
    }
}

/// What an index built from entries holds under a name: the entries of that
/// name in order, or nothing when there are none.
pub open spec fn gathered(bs: Seq<EntryView>, n: Seq<u8>) -> Option<Seq<EntryView>> {
    if named(bs, n).len() > 0 {
        Some(named(bs, n))
    } else {
        None
    }
}

proof fn lemma_position_of_present(g: Seq<GroupView>, i: int)
    requires
        groups_wf(g),
        0 <= i < g.len(),
    ensures
        name_position(g, g[i].name) == i,
{
    lemma_name_position(g, g[i].name);
    let p = name_position(g, g[i].name) as int;
    lemma_bytes_lt_irreflexive(g[i].name);
    if p > i {
        assert(bytes_lt(g[i].name, g[i].name));
    }
    if p < i {
        assert(bytes_lt(g[p].name, g[i].name));
    }
}

proof fn lemma_lookup_present(g: Seq<GroupView>, i: int)
    requires
        groups_wf(g),
        0 <= i < g.len(),
    ensures
        lookup(g, g[i].name) == Some(g[i].entries),
{
    lemma_position_of_present(g, i);
}

proof fn lemma_lookup_absent(g: Seq<GroupView>, n: Seq<u8>)
    requires
        groups_wf(g),
        forall|i: int| 0 <= i < g.len() ==> (#[trigger] g[i]).name != n,
    ensures
        lookup(g, n) is None,
{
    lemma_name_position(g, n);
    let k = name_position(g, n) as int;
    if k < g.len() {
        assert(g[k].name != n);
    }
}

proof fn lemma_lookup_index_entry(g: Seq<GroupView>, e: EntryView, n: Seq<u8>)
    requires
        groups_wf(g),
    ensures
        lookup(index_entry(g, e), n) == if n == e.name {
            Some(
                match lookup(g, n) {
                    Some(es) => es.push(e),
                    None => seq![e],
                },
            )
        } else {
            lookup(g, n)
        },
{
    lemma_index_entry(g, e);
    lemma_name_position(g, e.name);
    let r = index_entry(g, e);
    let k = name_position(g, e.name) as int;
    if k < g.len() && g[k].name == e.name {
        if n == e.name {
            lemma_lookup_present(r, k);
            lemma_lookup_present(g, k);
        } else if exists|i: int| 0 <= i < g.len() && g[i].name == n {
            let i = choose|i: int| 0 <= i < g.len() && g[i].name == n;
            lemma_lookup_present(r, i);
            lemma_lookup_present(g, i);
        } else {
            lemma_lookup_absent(g, n);
            assert forall|i: int| 0 <= i < r.len() implies (#[trigger] r[i]).name != n by {
                if i != k {
                    assert(r[i] == g[i]);
                }
            }
            lemma_lookup_absent(r, n);
        }
    } else {
        assert forall|i: int| 0 <= i < g.len() implies (#[trigger] g[i]).name != e.name by {
            if i < k {
                assert(bytes_lt(g[i].name, e.name));
                lemma_bytes_lt_irreflexive(e.name);
            } else if i > k && g[i].name == e.name {
                assert(bytes_lt(g[k].name, g[i].name));
            }
        }
        if n == e.name {
            lemma_lookup_absent(g, n);
            assert(r[k].name == e.name);
            lemma_lookup_present(r, k);
        } else if exists|i: int| 0 <= i < g.len() && g[i].name == n {
            let i = choose|i: int| 0 <= i < g.len() && g[i].name == n;
            lemma_lookup_present(g, i);
            if i < k {
                assert(r[i] == g[i]);
                lemma_lookup_present(r, i);
            } else {
                assert(r[i + 1] == g[i]);
                lemma_lookup_present(r, i + 1);
            }
        } else {
            lemma_lookup_absent(g, n);
            assert forall|i: int| 0 <= i < r.len() implies (#[trigger] r[i]).name != n by {
                if i < k {
                    assert(r[i] == g[i]);
                } else if i > k {
                    assert(r[i] == g[i - 1]);
                }
            }
            lemma_lookup_absent(r, n);
        }
    }
}

/// An index built from nothing by adding entries holds, under every name,
/// exactly the entries of that name in the order they were added; it is
/// well formed and holds as many entries as were added.
pub proof fn law_index_groups_by_name(bs: Seq<EntryView>, n: Seq<u8>)
    ensures
        groups_wf(index_entries(Seq::empty(), bs)),
        index_size(index_entries(Seq::empty(), bs)) == bs.len(),
        lookup(index_entries(Seq::empty(), bs), n) == gathered(bs, n),
    decreases bs.len(),
{
    if bs.len() == 0 {
        lemma_lookup_absent(Seq::<GroupView>::empty(), n);
    } else {
        law_index_groups_by_name(bs.drop_last(), n);
        let g = index_entries(Seq::<GroupView>::empty(), bs.drop_last());
        lemma_index_entry(g, bs.last());
        lemma_lookup_index_entry(g, bs.last(), n);
        if bs.last().name == n {
            if named(bs.drop_last(), n).len() == 0 {
                assert(named(bs.drop_last(), n).push(bs.last()) =~= seq![bs.last()]);
            }
        }
    }
}

proof fn lemma_named_empty(bs: Seq<EntryView>, n: Seq<u8>)
    requires
        named(bs, n).len() == 0,
    ensures
        forall|j: int| 0 <= j < bs.len() ==> (#[trigger] bs[j]).name != n,
    decreases bs.len(),
{
    if bs.len() > 0 {
        lemma_named_empty(bs.drop_last(), n);
        assert forall|j: int| 0 <= j < bs.len() implies (#[trigger] bs[j]).name != n by {
            if j < bs.len() - 1 {
                assert(bs[j] == bs.drop_last()[j]);
            }
        }
    }
}

proof fn lemma_named_first(bs: Seq<EntryView>, n: Seq<u8>) -> (i: int)
    requires
        named(bs, n).len() > 0,
    ensures
        0 <= i < bs.len(),
        named(bs, n)[0] == bs[i],
        bs[i].name == n,
        forall|j: int| 0 <= j < i ==> (#[trigger] bs[j]).name != n,
    decreases bs.len(),
{
    if named(bs.drop_last(), n).len() > 0 {
        let i = lemma_named_first(bs.drop_last(), n);
        assert forall|j: int| 0 <= j < i implies (#[trigger] bs[j]).name != n by {
            assert(bs[j] == bs.drop_last()[j]);
        }
        i
    } else {
        lemma_named_empty(bs.drop_last(), n);
        assert forall|j: int| 0 <= j < bs.len() - 1 implies (#[trigger] bs[j]).name != n by {
            assert(bs[j] == bs.drop_last()[j]);
        }
        (bs.len() - 1) as int
    }
}

proof fn lemma_dedup_members(s: Seq<EntryView>)
    ensures
        forall|k: int| 0 <= k < dedup_paths(s).len() ==> exists|j: int| 0 <= j < s.len() && s[j] == #[trigger] dedup_paths(s)[k],
    decreases s.len(),
{
    if s.len() > 0 {
        lemma_dedup_members(s.drop_last());
        let d = dedup_paths(s.drop_last());
        assert forall|k: int| 0 <= k < dedup_paths(s).len() implies exists|j: int| 0 <= j < s.len() && s[j] == #[trigger] dedup_paths(s)[k] by {
            if k < d.len() {
                let j = choose|j: int| 0 <= j < s.drop_last().len() && s.drop_last()[j] == d[k];
                assert(s[j] == d[k]);
            } else {
                assert(s[s.len() - 1] == dedup_paths(s)[k]);
            }
        }
    }
}

proof fn lemma_dedup_sorted(s: Seq<EntryView>)
    requires
        sorted_by(s, entry_order()),
    ensures
        sorted_by(dedup_paths(s), entry_order()),
        forall|i: int, j: int| 0 <= i < j < dedup_paths(s).len() ==> (#[trigger] dedup_paths(s)[i]).path != (#[trigger] dedup_paths(s)[j]).path,
    decreases s.len(),
{
    if s.len() > 0 {
        let t = s.drop_last();
        assert forall|i: int, j: int| 0 <= i < j < t.len() implies #[trigger] entry_order()(t[i], t[j]) by {
            assert(entry_order()(s[i], s[j]));
        }
        lemma_dedup_sorted(t);
        lemma_dedup_members(t);
        let d = dedup_paths(t);
        if !path_seen(t, s.last().path) {
            let r = d.push(s.last());
            assert forall|i: int, j: int| 0 <= i < j < r.len() implies #[trigger] entry_order()(r[i], r[j]) by {
                if j == d.len() {
                    let m = choose|m: int| 0 <= m < t.len() && t[m] == #[trigger] d[i];
                    assert(entry_order()(s[m], s[s.len() - 1]));
                } else {
                    assert(entry_order()(d[i], d[j]));
                }
            }
            assert forall|i: int, j: int| 0 <= i < j < r.len() implies (#[trigger] r[i]).path != (#[trigger] r[j]).path by {
                if j == d.len() {
                    let m = choose|m: int| 0 <= m < t.len() && t[m] == #[trigger] d[i];
                    assert(t[m].path == d[i].path);
                } else {
                    assert(d[i].path != d[j].path);
                }
            }
        }
    }
}

/// After the index is built, the binaries are in listing order (by
/// search-list position first), no two of them share a path, and each comes
/// from the binaries recorded.
pub proof fn law_normalized_binaries(raw: Seq<EntryView>)
    ensures
        sorted_by(normalized_binaries(raw), entry_order()),
        forall|i: int, j: int| 0 <= i < j < normalized_binaries(raw).len() ==> (#[trigger] normalized_binaries(raw)[i]).path_index <= (#[trigger] normalized_binaries(raw)[j]).path_index,
        forall|i: int, j: int| 0 <= i < j < normalized_binaries(raw).len() ==> (#[trigger] normalized_binaries(raw)[i]).path != (#[trigger] normalized_binaries(raw)[j]).path,
        forall|k: int| 0 <= k < normalized_binaries(raw).len() ==> raw.contains(#[trigger] normalized_binaries(raw)[k]),
{
    broadcast use vstd::seq_lib::to_multiset_contains;
    lemma_entry_order_total();
    raw.lemma_sort_by_ensures(entry_order());
    let sorted = raw.sort_by(entry_order());
    lemma_dedup_sorted(sorted);
    lemma_dedup_members(sorted);
    let nb = normalized_binaries(raw);
    assert forall|i: int, j: int| 0 <= i < j < nb.len() implies (#[trigger] nb[i]).path_index <= (#[trigger] nb[j]).path_index by {
        assert(entry_order()(nb[i], nb[j]));
    }
    assert forall|k: int| 0 <= k < nb.len() implies raw.contains(#[trigger] nb[k]) by {
        let j = choose|j: int| 0 <= j < sorted.len() && sorted[j] == #[trigger] nb[k];
        assert(sorted.contains(nb[k]));
        assert(sorted.to_multiset().count(nb[k]) > 0);
    }
}

/// Every path recorded is still there after the index is built.
pub proof fn law_normalized_keeps_every_path(raw: Seq<EntryView>, p: Seq<u8>)
    requires
        path_seen(raw, p),
    ensures
        path_seen(normalized_binaries(raw), p),
{
    broadcast use vstd::seq_lib::to_multiset_contains;
    lemma_entry_order_total();
    raw.lemma_sort_by_ensures(entry_order());
    let sorted = raw.sort_by(entry_order());
    let j = choose|j: int| 0 <= j < raw.len() && raw[j].path == p;
    assert(raw.to_multiset().count(raw[j]) > 0);
    assert(sorted.contains(raw[j]));
    lemma_dedup_keeps_paths(sorted, p);
}

proof fn lemma_dedup_keeps_paths(s: Seq<EntryView>, p: Seq<u8>)
    requires
        path_seen(s, p),
    ensures
        path_seen(dedup_paths(s), p),
    decreases s.len(),
{
    let t = s.drop_last();
    if path_seen(t, p) {
        lemma_dedup_keeps_paths(t, p);
        let d = dedup_paths(t);
        let j = choose|j: int| 0 <= j < d.len() && d[j].path == p;
        if !path_seen(t, s.last().path) {
            assert(d.push(s.last())[j] == d[j]);
        }
    } else {
        assert(s.last().path == p) by {
            let j = choose|j: int| 0 <= j < s.len() && s[j].path == p;
            if j < s.len() - 1 {
                assert(t[j] == s[j]);
            }
        }
        assert(dedup_paths(s).last() == s.last());
    }
}

/// The binary a name runs (the first of its group) comes, among all binaries
/// of that name, from the earliest directory of the search list.
pub proof fn law_active_binary_comes_first(raw: Seq<EntryView>, n: Seq<u8>)
    ensures
        lookup(index_entries(Seq::empty(), normalized_binaries(raw)), n) matches Some(es) ==> {
            &&& es.len() > 0
            &&& es[0].name == n
            &&& forall|j: int| 0 <= j < normalized_binaries(raw).len() && (#[trigger] normalized_binaries(raw)[j]).name == n ==> es[0].path_index <= normalized_binaries(raw)[j].path_index
        },
{
    let nb = normalized_binaries(raw);
    law_index_groups_by_name(nb, n);
    law_normalized_binaries(raw);
    if named(nb, n).len() > 0 {
        let i = lemma_named_first(nb, n);
        assert forall|j: int| 0 <= j < nb.len() && (#[trigger] nb[j]).name == n implies nb[i].path_index <= nb[j].path_index by {
            if i < j {
            } else if j < i {
            }
        }
    }
}

proof fn lemma_shadowed_plus_groups(g: Seq<GroupView>)
    requires
        forall|i: int| 0 <= i < g.len() ==> (#[trigger] g[i]).entries.len() > 0,
    ensures
        shadowed_count(g) + g.len() == index_size(g),
    decreases g.len(),
{
    if g.len() > 0 {
        assert forall|i: int| 0 <= i < g.drop_last().len() implies (#[trigger] g.drop_last()[i]).entries.len() > 0 by {
            assert(g.drop_last()[i] == g[i]);
        }
        lemma_shadowed_plus_groups(g.drop_last());
        assert(g[g.len() - 1].entries.len() > 0);
    }
}

/// Counted over an index built from nothing, the shadowed binaries are the
/// binaries less one per command name.
pub proof fn law_shadowed_count(bs: Seq<EntryView>)
    ensures
        shadowed_count(index_entries(Seq::empty(), bs)) + index_entries(Seq::empty(), bs).len() == bs.len(),
        duplicate_count(index_entries(Seq::empty(), bs)) <= index_entries(Seq::empty(), bs).len(),
{
    law_index_groups_by_name(bs, Seq::empty());
    lemma_shadowed_plus_groups(index_entries(Seq::empty(), bs));
    lemma_shadowed_le_size(index_entries(Seq::empty(), bs));
}

} // verus!
