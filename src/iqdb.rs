//! The coordinator's decisions around the catalog: what enters the index
//! at startup, after a catalog insert, and before a catalog delete. The
//! catalog's own reads and writes happen outside the library.
use vstd::prelude::*;
use crate::catalog::SqlRow;
use crate::imgdb::{
    added, indexable, info_added, touched, ImageInfo, ImgBin, IqdbId, PostId, GROW_BY, N_BUCKETS,
};

verus! {

/// The index takes `row` when its info table has `len` slots.
pub open spec fn accepts(len: int, row: SqlRow) -> bool {
    indexable(row.s) && (row.id < len || row.id + GROW_BY <= usize::MAX)
}

/// The info table after loading `rows`, in order, into an empty index:
/// each taken row's record under its id, every other slot empty.
pub open spec fn loaded_info(rows: Seq<SqlRow>) -> Seq<ImageInfo>
    decreases rows.len(),
{
    if rows.len() == 0 {
        Seq::empty()
    } else {
        let info = loaded_info(rows.drop_last());
        let row = rows.last();
        if accepts(info.len() as int, row) {
            info_added(info, row.id as int, ImageInfo { id: row.id, avgl: row.s.avglf })
        } else {
            info
        }
    }
}

/// Buckets of an empty index.
pub open spec fn empty_buckets() -> Seq<Seq<u32>> {
    Seq::new(N_BUCKETS as nat, |b: int| Seq::<u32>::empty())
}

/// Buckets after loading `rows`, in order, into an empty index.
pub open spec fn loaded_buckets(rows: Seq<SqlRow>) -> Seq<Seq<u32>>
    decreases rows.len(),
{
    if rows.len() == 0 {
        empty_buckets()
    } else {
        let bk = loaded_buckets(rows.drop_last());
        let row = rows.last();
        if accepts(loaded_info(rows.drop_last()).len() as int, row) {
            added(bk, row.id, touched(row.s))
        } else {
            bk
        }
    }
}

/// Builds the index from the catalog's rows in ascending id order; each
/// row enters under its id as both internal and post id.
pub fn load_catalog(rows: &Vec<SqlRow>) -> (r: ImgBin)
    ensures
        r.wf(),
        r@.info == loaded_info(rows@),
        r@.buckets == loaded_buckets(rows@),
{
    let mut bin = ImgBin::new();
    assert forall|b: int| 0 <= b < N_BUCKETS implies #[trigger] bin@.buckets[b] == empty_buckets()[b] by {
        assert(bin@.buckets[b] =~= Seq::<u32>::empty());
    }
    assert(bin@.buckets =~= empty_buckets());
    let mut i: usize = 0;
    while i < rows.len()
        invariant
            i <= rows@.len(),
            bin.wf(),
            bin@.info == loaded_info(rows@.take(i as int)),
            bin@.buckets == loaded_buckets(rows@.take(i as int)),
        decreases rows@.len() - i,
    {
        let row = &rows[i];
        let _ = bin.add_image_in_memory(row.id, row.id, &row.s);
        assert(rows@.take(i + 1).drop_last() =~= rows@.take(i as int));
        i = i + 1;
    }
    assert(rows@.take(rows@.len() as int) =~= rows@);
    bin
}

/// After the catalog stored `haar` under `rowid`, puts it in the index
/// under that id as internal and post id. An id that does not fit 32 bits
/// is refused, as is what `add_image_in_memory` refuses.
pub fn add_image(bin: &mut ImgBin, rowid: i64, haar: &crate::signature::HaarSignature) -> (r: Option<
    IqdbId,
>)
    requires
        old(bin).wf(),
    ensures
        final(bin).wf(),
        0 <= rowid <= u32::MAX && indexable(*haar) && old(bin)@.fits(rowid as int) ==> r == Some(
            rowid as u32,
        ) && old(bin)@.adds(
            rowid as u32,
            (ImageInfo { id: rowid as u32, avgl: haar.avglf }),
            *haar,
            final(bin)@,
        ),
        !(0 <= rowid <= u32::MAX && indexable(*haar) && old(bin)@.fits(rowid as int)) ==> r is None
            && final(bin)@ == old(bin)@,
{
    if rowid < 0 || rowid > u32::MAX as i64 {
        return None;
    }
    let id = rowid as u32;
    bin.add_image_in_memory(id, id, haar)
}

/// Before the catalog deletes `post_id`, takes it out of the index, using
/// the signature of its catalog row `row`. Gives the post id back when
/// the index dropped it, and `None` when there is no row or the row cannot
/// be in the index.
pub fn remove_image(bin: &mut ImgBin, post_id: PostId, row: Option<SqlRow>) -> (r: Option<PostId>)
    requires
        old(bin).wf(),
    ensures
        final(bin).wf(),
        (match row {
            Some(rw) => rw.id < old(bin)@.info.len() && rw.s.coefs_in_range(),
            None => false,
        }) ==> r == Some(post_id) && old(bin)@.removes(row.unwrap().id, row.unwrap().s, final(bin)@),
        !(match row {
            Some(rw) => rw.id < old(bin)@.info.len() && rw.s.coefs_in_range(),
            None => false,
        }) ==> r is None && final(bin)@ == old(bin)@,
{
    match row {
        None => None,
        Some(rw) => {
            if (rw.id as usize) < bin.len() && rw.s.can_index() {
                bin.remove_image(&rw.s, rw.id);
                Some(post_id)
            } else {
                None
            }
        },
    }
}

} // verus!
