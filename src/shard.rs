//! Shard files: fixed-size records whose leading hash becomes a scalar.
use crate::scalar::{hash_bytes_to_scalar, hash_scalar, Scalar};
use vstd::prelude::*;
use vstd::slice::slice_subrange;

verus! {

/// The size of one record of a shard file.
pub const ENTRY_BYTE_LENGTH: usize = 40;

/// The size of the hash at the start of each record.
pub const HASH_BYTE_LENGTH: usize = 32;

#[verifier::external_type_specification]
#[verifier::external_body]
pub struct ExIoError(std::io::Error);

/// Why loading a shard directory failed.
#[derive(Debug)]
pub enum HdbAccError {
    /// A shard's length is not a whole number of records: the shard's path,
    /// as the caller named it, and its length in bytes.
    InvalidEntrySize(Vec<u8>, usize),
    /// Reading the directory or one of its files failed.
    IoError(std::io::Error),
}

/// One shard file: its path, as raw bytes, and its contents.
#[derive(Clone, Debug)]
pub struct ShardFile {
    pub path: Vec<u8>,
    pub contents: Vec<u8>,
}

/// The hash of record `k` of a shard's contents.
pub open spec fn record_hash(contents: Seq<u8>, k: int) -> Seq<u8> {
    contents.subrange(40 * k, 40 * k + 32)
}

/// The contents are a whole number of records.
pub open spec fn well_sized(contents: Seq<u8>) -> bool {
    contents.len() % 40 == 0
}

/// The scalars of a shard's records, in file order.
pub open spec fn shard_values(contents: Seq<u8>) -> Seq<nat> {
    Seq::new(contents.len() / 40, |k: int| hash_scalar(record_hash(contents, k)))
}

/// The values of a sequence of scalars.
pub open spec fn scalar_values(v: Seq<Scalar>) -> Seq<nat> {
    v.map_values(|s: Scalar| s.value())
}

pub open spec fn all_wf(v: Seq<Scalar>) -> bool {
    forall|i: int| 0 <= i < v.len() ==> #[trigger] v[i].wf()
}

/// `e` reports that the shard at `path` is `len` bytes long, which is no whole
/// number of records.
pub open spec fn is_size_error(e: HdbAccError, path: Seq<u8>, len: nat) -> bool {
    match e {
        HdbAccError::InvalidEntrySize(p, n) => p@ == path && n == len,
        _ => false,
    }
}

/// Appends the scalars of one shard's records to `out`, in file order.
/// A shard that is not a whole number of records leaves `out` as it was and
/// is reported with its path and length.
pub fn append_shard_scalars(out: &mut Vec<Scalar>, path: &Vec<u8>, contents: &[u8]) -> (r: Result<
    (),
    HdbAccError,
>)
    ensures
        r is Ok <==> well_sized(contents@),
        r is Ok ==> scalar_values(final(out)@) == scalar_values(old(out)@) + shard_values(
            contents@,
        ),
        r is Ok ==> (all_wf(old(out)@) ==> all_wf(final(out)@)),
        r is Err ==> final(out)@ == old(out)@ && is_size_error(
            r->Err_0,
            path@,
            contents@.len() as nat,
        ),
{
    let len = contents.len();
    if len % ENTRY_BYTE_LENGTH != 0 {
        return Err(HdbAccError::InvalidEntrySize(path.clone(), len));
    }
    let ghost start = out@;
    let n = len / ENTRY_BYTE_LENGTH;
    assert(n * 40 == len);
    let mut k: usize = 0;
    while k < n
        invariant
            n == contents@.len() / 40,
            n * 40 == contents@.len(),
            len == contents@.len(),
            k <= n,
            out@.len() == start.len() + k,
            out@.subrange(0, start.len() as int) == start,
            forall|j: int|
                0 <= j < k ==> #[trigger] out@[start.len() + j].wf() && out@[start.len()
                    + j].value() == hash_scalar(record_hash(contents@, j)),
        decreases n - k,
    {
        assert(k * 40 + 40 <= n * 40) by (nonlinear_arith)
            requires
                k < n,
        ;
        assert(k * 40 + 40 <= len);
        let at = k * ENTRY_BYTE_LENGTH;
        let hash = slice_subrange(contents, at, at + HASH_BYTE_LENGTH);
        let s = hash_bytes_to_scalar(hash);
        out.push(s);
        proof {
            assert(out@.subrange(0, start.len() as int) =~= start);
        }
        k += 1;
    }
    proof {
        assert forall|i: int| 0 <= i < out@.len() implies #[trigger] scalar_values(out@)[i] == (
        scalar_values(start) + shard_values(contents@))[i] by {
            if i < start.len() {
                assert(out@[i] == out@.subrange(0, start.len() as int)[i]);
            } else {
                assert(out@[start.len() + (i - start.len())].wf());
            }
        }
        assert(scalar_values(out@) =~= scalar_values(start) + shard_values(contents@));
        if all_wf(start) {
            assert forall|i: int| 0 <= i < out@.len() implies #[trigger] out@[i].wf() by {
                if i < start.len() {
                    assert(out@[i] == out@.subrange(0, start.len() as int)[i]);
                } else {
                    assert(out@[start.len() + (i - start.len())].wf());
                }
            }
        }
    }
    Ok(())
}

/// The contents of a sequence of shard files.
pub open spec fn shard_contents(shards: Seq<ShardFile>) -> Seq<Seq<u8>> {
    shards.map_values(|f: ShardFile| f.contents@)
}

/// The scalars of several shards' contents, shard after shard.
pub open spec fn concat_values(files: Seq<Seq<u8>>) -> Seq<nat>
    decreases files.len(),
{
    if files.len() == 0 {
        Seq::empty()
    } else {
        concat_values(files.drop_last()) + shard_values(files.last())
    }
}

/// Shard `i` is the first one that is not a whole number of records.
pub open spec fn is_first_ill_sized(files: Seq<Seq<u8>>, i: int) -> bool {
    &&& 0 <= i < files.len()
    &&& !well_sized(files[i])
    &&& forall|j: int| 0 <= j < i ==> well_sized(#[trigger] files[j])
}

/// The scalars of all records of the given shards, shard after shard and
/// each in file order. The first shard that is not a whole number of records
/// fails the whole load, and no scalar is returned.
pub fn scalars_of_shards(shards: &Vec<ShardFile>) -> (r: Result<Vec<Scalar>, HdbAccError>)
    ensures
        r is Ok <==> forall|i: int|
            0 <= i < shards@.len() ==> well_sized(#[trigger] shards@[i].contents@),
        r is Ok ==> scalar_values(r->Ok_0@) == concat_values(shard_contents(shards@)) && all_wf(
            r->Ok_0@,
        ),
        r is Err ==> exists|i: int|
            is_first_ill_sized(shard_contents(shards@), i) && is_size_error(
                r->Err_0,
                #[trigger] shards@[i].path@,
                shards@[i].contents@.len() as nat,
            ),
{
    let ghost files = shard_contents(shards@);
    let mut out: Vec<Scalar> = Vec::new();
    let mut i: usize = 0;
    while i < shards.len()
        invariant
            i <= shards@.len(),
            files == shard_contents(shards@),
            forall|j: int| 0 <= j < i ==> well_sized(#[trigger] shards@[j].contents@),
            scalar_values(out@) == concat_values(files.take(i as int)),
            all_wf(out@),
        decreases shards@.len() - i,
    {
        let shard = &shards[i];
        let ghost before = out@;
        match append_shard_scalars(&mut out, &shard.path, shard.contents.as_slice()) {
            Ok(()) => {},
            Err(e) => {
                assert(is_first_ill_sized(files, i as int));
                return Err(e);
            },
        }
        assert(files.take(i + 1).drop_last() =~= files.take(i as int));
        i += 1;
    }
    assert(files.take(i as int) =~= files);
    Ok(out)
}

} // verus!
