//! Classification of directory entries and the order in which shards are read.
use vstd::prelude::*;

verus! {

/// What the caller saw of one direct child of the shard directory.
#[derive(Clone, Debug)]
pub struct DirEntryInfo {
    /// The entry's file name, as raw bytes.
    pub name: Vec<u8>,
    /// Whether the entry is a directory.
    pub is_dir: bool,
}

/// What the loader does with a directory entry.
#[derive(Clone, Copy, Debug, PartialEq, Eq, Structural)]
pub enum EntryKind {
    Ignore,
    Shard,
}

/// The name of the subdirectory that holds the shards' indexes.
pub open spec fn index_dir_name() -> Seq<u8> {
    seq![105u8, 110u8, 100u8, 101u8, 120u8]
}

/// `hlt.json`
pub open spec fn hlt_file_name() -> Seq<u8> {
    seq![104u8, 108u8, 116u8, 46u8, 106u8, 115u8, 111u8, 110u8]
}

/// `BUILD_INFO.json`
pub open spec fn build_info_file_name() -> Seq<u8> {
    seq![
        66u8, 85u8, 73u8, 76u8, 68u8, 95u8, 73u8, 78u8, 70u8, 79u8,
        46u8, 106u8, 115u8, 111u8, 110u8,
    ]
}

/// A name carries an extension when a dot stands anywhere after its first byte.
pub open spec fn has_extension(name: Seq<u8>) -> bool {
    exists|i: int| 0 < i < name.len() && name[i] == 46u8
}

/// The metadata files that sit beside the shards.
pub open spec fn is_reserved_name(name: Seq<u8>) -> bool {
    name == hlt_file_name() || name == build_info_file_name()
}

/// Shards are the plain files without an extension and without a reserved name.
pub open spec fn is_shard(name: Seq<u8>, is_dir: bool) -> bool {
    !is_dir && !is_reserved_name(name) && !has_extension(name)
}

/// Byte-wise lexicographic order of names, a proper prefix first.
pub open spec fn name_lt(a: Seq<u8>, b: Seq<u8>) -> bool
    decreases a.len(),
{
    if b.len() == 0 {
        false
    } else if a.len() == 0 {
        true
    } else if a[0] != b[0] {
        a[0] < b[0]
    } else {
        name_lt(a.drop_first(), b.drop_first())
    }
}

pub open spec fn entry_is_shard(entries: Seq<DirEntryInfo>, i: int) -> bool {
    is_shard(entries[i].name@, entries[i].is_dir)
}

/// Entry `i` is read before entry `j`: by name, and by position between equal names.
pub open spec fn entry_before(entries: Seq<DirEntryInfo>, i: int, j: int) -> bool {
    name_lt(entries[i].name@, entries[j].name@) || (entries[i].name@ == entries[j].name@ && i
        < j)
}

/// Position `i` stands in `order`.
pub open spec fn lists(order: Seq<usize>, i: int) -> bool {
    exists|k: int| 0 <= k < order.len() && order[k] as int == i
}

/// `order` lists the positions of exactly the shard entries, each once, sorted by name.
pub open spec fn is_shard_order(entries: Seq<DirEntryInfo>, order: Seq<usize>) -> bool {
    &&& forall|k: int|
        0 <= k < order.len() ==> #[trigger] order[k] < entries.len() && entry_is_shard(
            entries,
            order[k] as int,
        )
    &&& forall|i: int|
        0 <= i < entries.len() && #[trigger] entry_is_shard(entries, i) ==> lists(order, i)
    &&& forall|k: int, l: int|
        0 <= k < l < order.len() ==> entry_before(entries, #[trigger] order[k] as int, #[trigger] order[l] as int)
}

pub proof fn lemma_name_lt_irreflexive(a: Seq<u8>)
    ensures
        !name_lt(a, a),
    decreases a.len(),
{
    if a.len() > 0 {
        lemma_name_lt_irreflexive(a.drop_first());
    }
}

pub proof fn lemma_name_lt_transitive(a: Seq<u8>, b: Seq<u8>, c: Seq<u8>)
    requires
        name_lt(a, b),
        name_lt(b, c),
    ensures
        name_lt(a, c),
    decreases a.len(),
{
    if a.len() > 0 && a[0] == b[0] && b[0] == c[0] {
        lemma_name_lt_transitive(a.drop_first(), b.drop_first(), c.drop_first());
    }
}

/// Two different names are ordered one way or the other.
pub proof fn lemma_name_lt_total(a: Seq<u8>, b: Seq<u8>)
    requires
        a != b,
    ensures
        name_lt(a, b) || name_lt(b, a),
    decreases a.len(),
{
    if a.len() > 0 && b.len() > 0 && a[0] == b[0] {
        if a.drop_first() == b.drop_first() {
            assert(a =~= seq![a[0]] + a.drop_first());
            assert(b =~= seq![b[0]] + b.drop_first());
        }
        lemma_name_lt_total(a.drop_first(), b.drop_first());
    } else if a.len() == 0 && b.len() == 0 {
        assert(a =~= b);
    }
}

pub proof fn lemma_name_lt_asymmetric(a: Seq<u8>, b: Seq<u8>)
    requires
        name_lt(a, b),
    ensures
        !name_lt(b, a),
{
    if name_lt(b, a) {
        lemma_name_lt_transitive(a, b, a);
        lemma_name_lt_irreflexive(a);
    }
}

fn bytes_equal(a: &[u8], b: &[u8]) -> (r: bool)
    ensures
        r == (a@ == b@),
{
    if a.len() != b.len() {
        return false;
    }
    let mut i: usize = 0;
    while i < a.len()
        invariant
            a@.len() == b@.len(),
            i <= a@.len(),
            a@.subrange(0, i as int) == b@.subrange(0, i as int),
        decreases a@.len() - i,
    {
        if a[i] != b[i] {
            return false;
        }
        assert(a@.subrange(0, i + 1) == a@.subrange(0, i as int).push(a@[i as int]));
        assert(b@.subrange(0, i + 1) == b@.subrange(0, i as int).push(b@[i as int]));
        i += 1;
    }
    assert(a@ == a@.subrange(0, a@.len() as int));
    assert(b@ == b@.subrange(0, b@.len() as int));
    true
}

/// Whether `a` comes before `b` in byte-wise lexicographic order.
pub fn name_less(a: &[u8], b: &[u8]) -> (r: bool)
    ensures
        r == name_lt(a@, b@),
{
    let mut i: usize = 0;
    assert(a@.skip(0) =~= a@);
    assert(b@.skip(0) =~= b@);
    while i < a.len() && i < b.len()
        invariant
            i <= a@.len(),
            i <= b@.len(),
            name_lt(a@, b@) == name_lt(a@.skip(i as int), b@.skip(i as int)),
        decreases a@.len() - i,
    {
        if a[i] != b[i] {
            return a[i] < b[i];
        }
        assert(a@.skip(i as int).drop_first() =~= a@.skip(i + 1));
        assert(b@.skip(i as int).drop_first() =~= b@.skip(i + 1));
        i += 1;
    }
    i < b.len()
}

/// Decides whether a directory entry is a shard to be read.
pub fn classify(name: &[u8], is_dir: bool) -> (r: EntryKind)
    ensures
        r == (if is_shard(name@, is_dir) {
            EntryKind::Shard
        } else {
            EntryKind::Ignore
        }),
{
    if is_dir {
        return EntryKind::Ignore;
    }
    let hlt: Vec<u8> = vec![104u8, 108u8, 116u8, 46u8, 106u8, 115u8, 111u8, 110u8];
    let build_info: Vec<u8> = vec![
        66u8, 85u8, 73u8, 76u8, 68u8, 95u8, 73u8, 78u8, 70u8, 79u8,
        46u8, 106u8, 115u8, 111u8, 110u8,
    ];
    assert(hlt@ =~= hlt_file_name());
    assert(build_info@ =~= build_info_file_name());
    if bytes_equal(name, hlt.as_slice()) || bytes_equal(name, build_info.as_slice()) {
        return EntryKind::Ignore;
    }
    let mut i: usize = 1;
    while i < name.len()
        invariant
            1 <= i,
            forall|j: int| 0 < j < i && j < name@.len() ==> name@[j] != 46u8,
        decreases name@.len() - i,
    {
        if name[i] == 46u8 {
            return EntryKind::Ignore;
        }
        i += 1;
    }
    EntryKind::Shard
}

/// The positions of the shard entries, in the order in which they are read:
/// by name, byte-wise lexicographically, so that the result does not depend
/// on the order in which the directory was listed.
pub fn shard_order(entries: &Vec<DirEntryInfo>) -> (order: Vec<usize>)
    ensures
        is_shard_order(entries@, order@),
{
    let mut order: Vec<usize> = Vec::new();
    let mut i: usize = 0;
    while i < entries.len()
        invariant
            i <= entries@.len(),
            forall|k: int|
                0 <= k < order@.len() ==> #[trigger] order@[k] < i && entry_is_shard(
                    entries@,
                    order@[k] as int,
                ),
            forall|j: int|
                0 <= j < i && #[trigger] entry_is_shard(entries@, j) ==> lists(order@, j),
            forall|k: int, l: int|
                0 <= k < l < order@.len() ==> entry_before(
                    entries@,
                    #[trigger] order@[k] as int,
                    #[trigger] order@[l] as int,
                ),
        decreases entries@.len() - i,
    {
        let entry = &entries[i];
        if classify(entry.name.as_slice(), entry.is_dir) == EntryKind::Shard {
            let mut p: usize = 0;
            while p < order.len() && !name_less(
                entry.name.as_slice(),
                entries[order[p]].name.as_slice(),
            )
                invariant
                    p <= order@.len(),
                    i < entries@.len(),
                    entry == entries@[i as int],
                    forall|k: int| 0 <= k < order@.len() ==> #[trigger] order@[k] < i,
                    forall|k: int| 0 <= k < p ==> entry_before(entries@, #[trigger] order@[k] as int, i as int),
                decreases order@.len() - p,
            {
                let ghost q = order@[p as int] as int;
                proof {
                    if entries@[q].name@ != entries@[i as int].name@ {
                        lemma_name_lt_total(entries@[q].name@, entries@[i as int].name@);
                    }
                }
                p += 1;
            }
            proof {
                if p < order@.len() {
                    let q = order@[p as int] as int;
                    assert(name_lt(entries@[i as int].name@, entries@[q].name@));
                    assert forall|l: int| p <= l < order@.len() implies entry_before(
                        entries@,
                        i as int,
                        #[trigger] order@[l] as int,
                    ) by {
                        if l > p {
                            let r = order@[l] as int;
                            assert(entry_before(entries@, q, r));
                            if name_lt(entries@[q].name@, entries@[r].name@) {
                                lemma_name_lt_transitive(
                                    entries@[i as int].name@,
                                    entries@[q].name@,
                                    entries@[r].name@,
                                );
                            }
                        }
                    }
                }
            }
            let ghost old_order = order@;
            order.insert(p, i);
            proof {
                assert forall|k: int, l: int| 0 <= k < l < order@.len() implies entry_before(
                    entries@,
                    #[trigger] order@[k] as int,
                    #[trigger] order@[l] as int,
                ) by {
                    if l < p {
                        assert(order@[k] == old_order[k]);
                        assert(order@[l] == old_order[l]);
                    } else if k < p && l == p {
                    } else if k < p && l > p {
                        assert(order@[l] == old_order[l - 1]);
                    } else if k == p {
                        assert(order@[l] == old_order[l - 1]);
                    } else {
                        assert(order@[k] == old_order[k - 1]);
                        assert(order@[l] == old_order[l - 1]);
                    }
                }
                assert forall|j: int|
                    0 <= j < i + 1 && #[trigger] entry_is_shard(entries@, j) implies lists(order@, j) by {
                    if j == i {
                        assert(order@[p as int] == i);
                    } else {
                        let k = choose|k: int| 0 <= k < old_order.len() && old_order[k] as int == j;
                        if k < p {
                            assert(order@[k] as int == j);
                        } else {
                            assert(order@[k + 1] as int == j);
                        }
                    }
                }
            }
        }
        i += 1;
    }
    order
}

} // verus!
