//! Properties of loading a shard directory, stated over the contracts of
//! `shard_order`, `append_shard_scalars` and `scalars_of_shards`.
use crate::entry::{
    build_info_file_name, entry_before, entry_is_shard, has_extension, hlt_file_name,
    index_dir_name, is_reserved_name, is_shard, is_shard_order, lemma_name_lt_asymmetric, lists,
    lemma_name_lt_irreflexive, name_lt, DirEntryInfo,
};
use crate::shard::{concat_values, record_hash, shard_values};
use vstd::prelude::*;

verus! {

/// Where the scalars of shard `k` start among those of `files`.
pub open spec fn values_offset(files: Seq<Seq<u8>>, k: int) -> int {
    concat_values(files.take(k)).len() as int
}

/// The scalars of a run of shards are those of its first part followed by
/// those of the rest.
pub proof fn lemma_concat_split(files: Seq<Seq<u8>>, m: int)
    requires
        0 <= m <= files.len(),
    ensures
        concat_values(files) == concat_values(files.take(m)) + concat_values(files.skip(m)),
    decreases files.len(),
{
    if m == files.len() {
        assert(files.take(m) =~= files);
        assert(files.skip(m) =~= Seq::<Seq<u8>>::empty());
        assert(concat_values(files) + Seq::<nat>::empty() =~= concat_values(files));
    } else {
        let d = files.drop_last();
        lemma_concat_split(d, m);
        assert(d.take(m) =~= files.take(m));
        assert(d.skip(m) =~= files.skip(m).drop_last());
        assert(files.skip(m).last() == files.last());
        assert(concat_values(files.take(m)) + concat_values(d.skip(m)) + shard_values(
            files.last(),
        ) =~= concat_values(files.take(m)) + (concat_values(d.skip(m)) + shard_values(
            files.last(),
        )));
    }
}

/// The scalars of shard `k` stand, in one block, at its offset.
pub proof fn lemma_shard_block(files: Seq<Seq<u8>>, k: int)
    requires
        0 <= k < files.len(),
    ensures
        values_offset(files, k) + shard_values(files[k]).len() <= concat_values(files).len(),
        concat_values(files).subrange(
            values_offset(files, k),
            values_offset(files, k) + shard_values(files[k]).len(),
        ) == shard_values(files[k]),
{
    lemma_concat_split(files, k);
    let rest = files.skip(k);
    lemma_concat_split(rest, 1);
    assert(rest.take(1).drop_last() =~= Seq::<Seq<u8>>::empty());
    assert(rest.take(1).last() == files[k]);
    assert(concat_values(Seq::<Seq<u8>>::empty()) =~= Seq::<nat>::empty());
    assert(concat_values(rest.take(1)) =~= shard_values(files[k]));
    let whole = concat_values(files);
    let o = values_offset(files, k);
    let n = shard_values(files[k]).len() as int;
    assert(whole =~= concat_values(files.take(k)) + (shard_values(files[k]) + concat_values(
        rest.skip(1),
    )));
    assert(whole.subrange(o, o + n) =~= shard_values(files[k]));
}

/// Shards further on start no earlier than the end of shard `k`.
pub proof fn lemma_offset_after_block(files: Seq<Seq<u8>>, k: int, l: int)
    requires
        0 <= k < l <= files.len(),
    ensures
        values_offset(files, k) + shard_values(files[k]).len() <= values_offset(files, l),
{
    let front = files.take(l);
    lemma_concat_split(front, k + 1);
    assert(front.take(k + 1) =~= files.take(k + 1));
    assert(files.take(k + 1).drop_last() =~= files.take(k));
    assert(files.take(k + 1).last() == files[k]);
}

/// Directories, the index directory among them, the two metadata files and
/// every name with an extension are never shards: no reading order holds
/// them, so none of their bytes reach the result, whatever they contain.
pub proof fn lemma_ignored_entries_are_not_read(
    entries: Seq<DirEntryInfo>,
    order: Seq<usize>,
    i: int,
)
    requires
        is_shard_order(entries, order),
        0 <= i < entries.len(),
        entries[i].is_dir || is_reserved_name(entries[i].name@) || has_extension(
            entries[i].name@,
        ),
    ensures
        !lists(order, i),
        !is_shard(index_dir_name(), true),
        !is_shard(hlt_file_name(), false),
        !is_shard(build_info_file_name(), false),
{
    if lists(order, i) {
        let k = choose|k: int| 0 <= k < order.len() && order[k] as int == i;
        assert(entry_is_shard(entries, order[k] as int));
    }
}

/// Of two shards, the one whose name comes first has all its scalars before
/// all those of the other, whatever order the directory was listed in.
/// `files[k]` stands for the contents of the shard at `order[k]`.
pub proof fn lemma_earlier_name_earlier_scalars(
    entries: Seq<DirEntryInfo>,
    order: Seq<usize>,
    files: Seq<Seq<u8>>,
    a: int,
    b: int,
)
    requires
        is_shard_order(entries, order),
        files.len() == order.len(),
        0 <= a < entries.len(),
        0 <= b < entries.len(),
        entry_is_shard(entries, a),
        entry_is_shard(entries, b),
        name_lt(entries[a].name@, entries[b].name@),
    ensures
        exists|ka: int, kb: int|
            {
                &&& 0 <= ka < kb < order.len()
                &&& order[ka] == a
                &&& order[kb] == b
                &&& values_offset(files, ka) + shard_values(files[ka]).len() <= values_offset(
                    files,
                    kb,
                )
                &&& concat_values(files).subrange(
                    values_offset(files, ka),
                    values_offset(files, ka) + shard_values(files[ka]).len(),
                ) == shard_values(files[ka])
                &&& concat_values(files).subrange(
                    values_offset(files, kb),
                    values_offset(files, kb) + shard_values(files[kb]).len(),
                ) == shard_values(files[kb])
            },
{
    assert(lists(order, a));
    assert(lists(order, b));
    let ka = choose|k: int| 0 <= k < order.len() && order[k] as int == a;
    let kb = choose|k: int| 0 <= k < order.len() && order[k] as int == b;
    lemma_name_lt_irreflexive(entries[a].name@);
    lemma_name_lt_asymmetric(entries[a].name@, entries[b].name@);
    if kb < ka {
        assert(entry_before(entries, order[kb] as int, order[ka] as int));
    }
    assert(ka != kb);
    lemma_offset_after_block(files, ka, kb);
    lemma_shard_block(files, ka);
    lemma_shard_block(files, kb);
}

/// A scalar depends on its record's hash alone: two records with the same
/// hash, in the same shard or in two, give the same scalar, whatever their
/// trailing bytes.
pub proof fn lemma_scalar_depends_on_hash_only(c1: Seq<u8>, k1: int, c2: Seq<u8>, k2: int)
    requires
        0 <= k1 < c1.len() / 40,
        0 <= k2 < c2.len() / 40,
        record_hash(c1, k1) == record_hash(c2, k2),
    ensures
        shard_values(c1)[k1] == shard_values(c2)[k2],
{
}

/// A directory without shards, empty or holding only ignored entries, has an
/// empty reading order and yields no scalar.
pub proof fn lemma_no_shards_no_scalars(entries: Seq<DirEntryInfo>, order: Seq<usize>)
    requires
        is_shard_order(entries, order),
        forall|i: int| 0 <= i < entries.len() ==> !#[trigger] entry_is_shard(entries, i),
    ensures
        order.len() == 0,
        concat_values(Seq::empty()) == Seq::<nat>::empty(),
{
    if order.len() > 0 {
        assert(entry_is_shard(entries, order[0] as int));
    }
}

} // verus!
