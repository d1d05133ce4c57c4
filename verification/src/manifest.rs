//! The manifest log: a durable, ordered, replayable record of metadata
//! edits describing the live file set.
//!
//! The directory holds numbered manifest files and one current pointer.
//! A manifest file is a sequence of records, each framed as a u64
//! little-endian length followed by the record bytes. The pointer file
//! holds the active file number as four little-endian bytes and is only
//! ever replaced atomically, via a temporary file and a rename.
//!
//! The directory is modelled as a value, [`MemDir`]; callers that keep a
//! real directory mirror each step onto it.

use crate::data::copy_bytes;
use crate::data::put_u32;
use crate::data::put_u64;
use crate::error::Error;
use vstd::bytes::*;
use vstd::prelude::*;
use vstd::seq_lib::*;
use vstd::slice::slice_subrange;

verus! {

/// A file newly added to the live set.
#[derive(Copy, Clone, Debug, PartialEq, Eq, Structural)]
pub struct NewFile {
    pub id: u32,
    pub up1: u32,
    pub up2: u32,
}

impl NewFile {
    /// A fresh file whose updated-at marks equal its id.
    pub fn from_id(id: u32) -> (r: Self)
        ensures
            r.id == id && r.up1 == id && r.up2 == id,
    {
        NewFile { id, up1: id, up2: id }
    }
}

/// The abstract value of a [`VersionEdit`].
pub struct VersionEditView {
    pub new_files: Seq<NewFile>,
    pub deleted_files: Seq<u32>,
}

/// One metadata edit: files added to and removed from the live set.
/// Callers replay a manifest's edits in order to reconstruct the set.
#[derive(Debug)]
pub struct VersionEdit {
    pub new_files: Vec<NewFile>,
    pub deleted_files: Vec<u32>,
}

impl View for VersionEdit {
    type V = VersionEditView;

    open spec fn view(&self) -> VersionEditView {
        VersionEditView { new_files: self.new_files@, deleted_files: self.deleted_files@ }
    }
}

/// The wire form of one new-file entry: three u32 little-endian fields.
pub open spec fn spec_enc_newfile(f: NewFile) -> Seq<u8> {
    spec_u32_to_le_bytes(f.id) + spec_u32_to_le_bytes(f.up1) + spec_u32_to_le_bytes(f.up2)
}

/// The packed new-file entries.
pub open spec fn spec_enc_newfiles(fs: Seq<NewFile>) -> Seq<u8>
    decreases fs.len(),
{
    if fs.len() == 0 {
        Seq::empty()
    } else {
        spec_enc_newfile(fs[0]) + spec_enc_newfiles(fs.drop_first())
    }
}

/// The packed deleted-file numbers, u32 little-endian each.
pub open spec fn spec_enc_dels(ds: Seq<u32>) -> Seq<u8>
    decreases ds.len(),
{
    if ds.len() == 0 {
        Seq::empty()
    } else {
        spec_u32_to_le_bytes(ds[0]) + spec_enc_dels(ds.drop_first())
    }
}

/// The wire form of an edit: a u32 count and the new-file entries, then a
/// u32 count and the deleted numbers.
pub open spec fn spec_enc_edit(v: VersionEditView) -> Seq<u8> {
    spec_u32_to_le_bytes(v.new_files.len() as u32) + spec_enc_newfiles(v.new_files)
        + spec_u32_to_le_bytes(v.deleted_files.len() as u32) + spec_enc_dels(v.deleted_files)
}

/// An edit that fits its u32 counts.
pub open spec fn edit_wf(v: VersionEditView) -> bool {
    v.new_files.len() <= 0xFFFF && v.deleted_files.len() <= 0xFFFF
}

pub proof fn lemma_enc_newfiles_len(fs: Seq<NewFile>)
    ensures
        spec_enc_newfiles(fs).len() == 12 * fs.len(),
    decreases fs.len(),
{
    lemma_auto_spec_u32_to_from_le_bytes();
    if fs.len() > 0 {
        lemma_enc_newfiles_len(fs.drop_first());
    }
}

pub proof fn lemma_enc_dels_len(ds: Seq<u32>)
    ensures
        spec_enc_dels(ds).len() == 4 * ds.len(),
    decreases ds.len(),
{
    lemma_auto_spec_u32_to_from_le_bytes();
    if ds.len() > 0 {
        lemma_enc_dels_len(ds.drop_first());
    }
}

proof fn lemma_enc_newfiles_concat(a: Seq<NewFile>, b: Seq<NewFile>)
    ensures
        spec_enc_newfiles(a + b) == spec_enc_newfiles(a) + spec_enc_newfiles(b),
    decreases a.len(),
{
    if a.len() == 0 {
        assert(a + b =~= b);
        assert(spec_enc_newfiles(a) + spec_enc_newfiles(b) =~= spec_enc_newfiles(b));
    } else {
        assert((a + b).drop_first() =~= a.drop_first() + b);
        lemma_enc_newfiles_concat(a.drop_first(), b);
        assert((a + b)[0] == a[0]);
        assert(spec_enc_newfiles(a + b) =~= spec_enc_newfiles(a) + spec_enc_newfiles(b));
    }
}

proof fn lemma_enc_newfiles_take_succ(fs: Seq<NewFile>, i: int)
    requires
        0 <= i < fs.len(),
    ensures
        spec_enc_newfiles(fs.take(i + 1)) == spec_enc_newfiles(fs.take(i)) + spec_enc_newfile(
            fs[i],
        ),
{
    assert(fs.take(i + 1) =~= fs.take(i) + seq![fs[i]]);
    lemma_enc_newfiles_concat(fs.take(i), seq![fs[i]]);
    let single = seq![fs[i]];
    assert(single.len() == 1 && single[0] == fs[i]);
    assert(single.drop_first() =~= Seq::<NewFile>::empty());
    assert(spec_enc_newfiles(single) == spec_enc_newfile(single[0]) + spec_enc_newfiles(
        single.drop_first(),
    ));
    assert(spec_enc_newfiles(single) =~= spec_enc_newfile(fs[i]));
}

proof fn lemma_enc_dels_concat(a: Seq<u32>, b: Seq<u32>)
    ensures
        spec_enc_dels(a + b) == spec_enc_dels(a) + spec_enc_dels(b),
    decreases a.len(),
{
    if a.len() == 0 {
        assert(a + b =~= b);
        assert(spec_enc_dels(a) + spec_enc_dels(b) =~= spec_enc_dels(b));
    } else {
        assert((a + b).drop_first() =~= a.drop_first() + b);
        lemma_enc_dels_concat(a.drop_first(), b);
        assert((a + b)[0] == a[0]);
        assert(spec_enc_dels(a + b) =~= spec_enc_dels(a) + spec_enc_dels(b));
    }
}

proof fn lemma_enc_dels_take_succ(ds: Seq<u32>, i: int)
    requires
        0 <= i < ds.len(),
    ensures
        spec_enc_dels(ds.take(i + 1)) == spec_enc_dels(ds.take(i)) + spec_u32_to_le_bytes(
            ds[i],
        ),
{
    assert(ds.take(i + 1) =~= ds.take(i) + seq![ds[i]]);
    lemma_enc_dels_concat(ds.take(i), seq![ds[i]]);
    let single = seq![ds[i]];
    assert(single.len() == 1 && single[0] == ds[i]);
    assert(single.drop_first() =~= Seq::<u32>::empty());
    assert(spec_enc_dels(single) == spec_u32_to_le_bytes(single[0]) + spec_enc_dels(
        single.drop_first(),
    ));
    assert(spec_enc_dels(single) =~= spec_u32_to_le_bytes(ds[i]));
}

impl VersionEdit {
    /// An edit adding and removing nothing.
    pub fn empty() -> (r: Self)
        ensures
            r@.new_files == Seq::<NewFile>::empty(),
            r@.deleted_files == Seq::<u32>::empty(),
    {
        VersionEdit { new_files: Vec::new(), deleted_files: Vec::new() }
    }

    /// Encodes the edit to its wire form.
    pub fn encode_to_vec(&self) -> (r: Vec<u8>)
        requires
            edit_wf(self@),
        ensures
            r@ == spec_enc_edit(self@),
    {
        proof {
            lemma_auto_spec_u32_to_from_le_bytes();
        }
        let mut out: Vec<u8> = Vec::new();
        put_u32(&mut out, self.new_files.len() as u32);
        let ghost fs = self.new_files@;
        let n = self.new_files.len();
        let mut i: usize = 0;
        proof {
            assert(fs.take(0) =~= Seq::<NewFile>::empty());
            lemma_enc_newfiles_len(fs);
        }
        while i < n
            invariant
                i <= n,
                n == fs.len(),
                fs == self.new_files@,
                out@ == spec_u32_to_le_bytes(fs.len() as u32) + spec_enc_newfiles(fs.take(i as int)),
            decreases n - i,
        {
            let f = self.new_files[i];
            put_u32(&mut out, f.id);
            put_u32(&mut out, f.up1);
            put_u32(&mut out, f.up2);
            proof {
                lemma_enc_newfiles_take_succ(fs, i as int);
                assert(out@ =~= spec_u32_to_le_bytes(fs.len() as u32) + spec_enc_newfiles(
                    fs.take(i as int + 1),
                ));
            }
            i += 1;
        }
        proof {
            assert(fs.take(n as int) =~= fs);
        }
        put_u32(&mut out, self.deleted_files.len() as u32);
        let ghost ds = self.deleted_files@;
        let ghost base = out@;
        let m = self.deleted_files.len();
        let mut j: usize = 0;
        proof {
            assert(ds.take(0) =~= Seq::<u32>::empty());
            assert(out@ =~= base + spec_enc_dels(ds.take(0)));
        }
        while j < m
            invariant
                j <= m,
                m == ds.len(),
                ds == self.deleted_files@,
                out@ == base + spec_enc_dels(ds.take(j as int)),
            decreases m - j,
        {
            let d = self.deleted_files[j];
            put_u32(&mut out, d);
            proof {
                lemma_enc_dels_take_succ(ds, j as int);
                assert(out@ =~= base + spec_enc_dels(ds.take(j as int + 1)));
            }
            j += 1;
        }
        proof {
            assert(ds.take(m as int) =~= ds);
            assert(out@ =~= spec_enc_edit(self@));
        }
        out
    }

    /// Decodes an edit from exactly these bytes; nothing when they are not
    /// an edit's wire form.
    pub fn decode(bytes: &[u8]) -> (r: Option<VersionEdit>)
        ensures
            r matches Some(v) ==> bytes@ == spec_enc_edit(v@) && edit_wf(v@),
            forall|e: VersionEditView|
                bytes@ == #[trigger] spec_enc_edit(e) && edit_wf(e) ==> r is Some,
    {
        proof {
            lemma_auto_spec_u32_to_from_le_bytes();
        }
        let len = bytes.len();
        if len < 4 {
            proof {
                assert forall|e: VersionEditView|
                    bytes@ != #[trigger] spec_enc_edit(e) || !edit_wf(e) by {
                    lemma_enc_newfiles_len(e.new_files);
                    lemma_enc_dels_len(e.deleted_files);
                }
            }
            return None;
        }
        let nf = u32_from_le_bytes(slice_subrange(bytes, 0, 4)) as usize;
        if nf > 0xFFFF || len - 4 < 12 * nf || len - 4 - 12 * nf < 4 {
            proof {
                assert forall|e: VersionEditView|
                    bytes@ != #[trigger] spec_enc_edit(e) || !edit_wf(e) by {
                    if bytes@ == spec_enc_edit(e) && edit_wf(e) {
                        lemma_enc_newfiles_len(e.new_files);
                        lemma_enc_dels_len(e.deleted_files);
                        assert(bytes@.subrange(0, 4) =~= spec_u32_to_le_bytes(
                            e.new_files.len() as u32,
                        ));
                        assert(e.new_files.len() == nf);
                    }
                }
            }
            return None;
        }
        let mut new_files: Vec<NewFile> = Vec::new();
        let mut i: usize = 0;
        let ghost gnf = Seq::new(
            nf as nat,
            |k: int|
                NewFile {
                    id: spec_u32_from_le_bytes(bytes@.subrange(4 + 12 * k, 8 + 12 * k)),
                    up1: spec_u32_from_le_bytes(bytes@.subrange(8 + 12 * k, 12 + 12 * k)),
                    up2: spec_u32_from_le_bytes(bytes@.subrange(12 + 12 * k, 16 + 12 * k)),
                },
        );
        while i < nf
            invariant
                i <= nf,
                4 + 12 * nf + 4 <= bytes@.len(),
                bytes@.len() <= usize::MAX,
                gnf.len() == nf,
                new_files@ == gnf.take(i as int),
                forall|k: int|
                    0 <= k < nf ==> #[trigger] gnf[k] == (NewFile {
                        id: spec_u32_from_le_bytes(bytes@.subrange(4 + 12 * k, 8 + 12 * k)),
                        up1: spec_u32_from_le_bytes(bytes@.subrange(8 + 12 * k, 12 + 12 * k)),
                        up2: spec_u32_from_le_bytes(bytes@.subrange(12 + 12 * k, 16 + 12 * k)),
                    }),
            decreases nf - i,
        {
            let id = u32_from_le_bytes(slice_subrange(bytes, 4 + 12 * i, 8 + 12 * i));
            let up1 = u32_from_le_bytes(slice_subrange(bytes, 8 + 12 * i, 12 + 12 * i));
            let up2 = u32_from_le_bytes(slice_subrange(bytes, 12 + 12 * i, 16 + 12 * i));
            new_files.push(NewFile { id, up1, up2 });
            proof {
                assert(new_files@ =~= gnf.take(i as int + 1));
            }
            i += 1;
        }
        proof {
            assert(gnf.take(nf as int) =~= gnf);
        }
        let dpos = 4 + 12 * nf;
        let nd = u32_from_le_bytes(slice_subrange(bytes, dpos, dpos + 4)) as usize;
        if nd > 0xFFFF || len - dpos - 4 != 4 * nd {
            proof {
                assert forall|e: VersionEditView|
                    bytes@ != #[trigger] spec_enc_edit(e) || !edit_wf(e) by {
                    if bytes@ == spec_enc_edit(e) && edit_wf(e) {
                        lemma_enc_newfiles_len(e.new_files);
                        lemma_enc_dels_len(e.deleted_files);
                        assert(bytes@.subrange(0, 4) =~= spec_u32_to_le_bytes(
                            e.new_files.len() as u32,
                        ));
                        assert(e.new_files.len() == nf);
                        assert(bytes@.subrange(dpos as int, dpos + 4) =~= spec_u32_to_le_bytes(
                            e.deleted_files.len() as u32,
                        ));
                        assert(e.deleted_files.len() == nd);
                    }
                }
            }
            return None;
        }
        let mut deleted_files: Vec<u32> = Vec::new();
        let mut j: usize = 0;
        let ghost gds = Seq::new(
            nd as nat,
            |k: int|
                spec_u32_from_le_bytes(
                    bytes@.subrange(dpos + 4 + 4 * k, dpos + 8 + 4 * k),
                ),
        );
        while j < nd
            invariant
                j <= nd,
                dpos == 4 + 12 * nf,
                dpos + 4 + 4 * nd <= bytes@.len(),
                bytes@.len() <= usize::MAX,
                gds.len() == nd,
                deleted_files@ == gds.take(j as int),
                forall|k: int|
                    0 <= k < nd ==> #[trigger] gds[k] == spec_u32_from_le_bytes(
                        bytes@.subrange(dpos + 4 + 4 * k, dpos + 8 + 4 * k),
                    ),
            decreases nd - j,
        {
            let d = u32_from_le_bytes(slice_subrange(bytes, dpos + 4 + 4 * j, dpos + 8 + 4 * j));
            deleted_files.push(d);
            proof {
                assert(deleted_files@ =~= gds.take(j as int + 1));
            }
            j += 1;
        }
        proof {
            assert(gds.take(nd as int) =~= gds);
        }
        let v = VersionEdit { new_files, deleted_files };
        proof {
            lemma_enc_newfiles_len(v@.new_files);
            lemma_enc_dels_len(v@.deleted_files);
            lemma_edit_decode_matches(bytes@, v@);
        }
        Some(v)
    }
}

/// When every field of `v` was read back from the right region of `s`,
/// `s` is exactly the encoding of `v`.
proof fn lemma_edit_decode_matches(s: Seq<u8>, v: VersionEditView)
    requires
        v.new_files.len() <= 0xFFFF,
        v.deleted_files.len() <= 0xFFFF,
        s.len() == 8 + 12 * v.new_files.len() + 4 * v.deleted_files.len(),
        s.subrange(0, 4) == spec_u32_to_le_bytes(v.new_files.len() as u32),
        forall|k: int|
            0 <= k < v.new_files.len() ==> (#[trigger] v.new_files[k]).id
                == spec_u32_from_le_bytes(s.subrange(4 + 12 * k, 8 + 12 * k))
                && v.new_files[k].up1 == spec_u32_from_le_bytes(s.subrange(8 + 12 * k, 12 + 12 * k))
                && v.new_files[k].up2 == spec_u32_from_le_bytes(
                s.subrange(12 + 12 * k, 16 + 12 * k),
            ),
        s.subrange(4 + 12 * v.new_files.len() as int, 8 + 12 * v.new_files.len() as int)
            == spec_u32_to_le_bytes(v.deleted_files.len() as u32),
        forall|k: int|
            0 <= k < v.deleted_files.len() ==> #[trigger] v.deleted_files[k]
                == spec_u32_from_le_bytes(
                s.subrange(
                    8 + 12 * v.new_files.len() as int + 4 * k,
                    12 + 12 * v.new_files.len() as int + 4 * k,
                ),
            ),
    ensures
        s == spec_enc_edit(v),
{
    lemma_auto_spec_u32_to_from_le_bytes();
    let e = spec_enc_edit(v);
    lemma_enc_newfiles_len(v.new_files);
    lemma_enc_dels_len(v.deleted_files);
    let nf = v.new_files.len() as int;
    let nd = v.deleted_files.len() as int;
    assert(e.len() == s.len());
    assert forall|p: int| 0 <= p < s.len() implies s[p] == e[p] by {
        lemma_enc_edit_byte(v, p);
        if p < 4 {
            assert(s.subrange(0, 4)[p] == s[p]);
            assert(e[p] == spec_u32_to_le_bytes(v.new_files.len() as u32)[p]);
        } else if p < 4 + 12 * nf {
            let k = (p - 4) / 12;
            let o = (p - 4) % 12;
            assert(0 <= k < nf && 0 <= o < 12 && p == 4 + 12 * k + o) by (nonlinear_arith)
                requires
                    k == (p - 4) / 12,
                    o == (p - 4) % 12,
                    4 <= p < 4 + 12 * nf,
            ;
            assert(spec_enc_newfiles(v.new_files)[12 * k + o] == spec_enc_newfile(
                v.new_files[k],
            )[o]);
            assert(e[p] == spec_enc_newfiles(v.new_files)[p - 4]);
            assert(p - 4 == 12 * k + o);
            let fb = spec_enc_newfile(v.new_files[k]);
            assert(spec_u32_to_le_bytes(v.new_files[k].id) =~= s.subrange(
                4 + 12 * k,
                8 + 12 * k,
            ));
            assert(spec_u32_to_le_bytes(v.new_files[k].up1) =~= s.subrange(
                8 + 12 * k,
                12 + 12 * k,
            ));
            assert(spec_u32_to_le_bytes(v.new_files[k].up2) =~= s.subrange(
                12 + 12 * k,
                16 + 12 * k,
            ));
            assert(spec_u32_to_le_bytes(v.new_files[k].id).len() == 4 && spec_u32_to_le_bytes(
                v.new_files[k].up1,
            ).len() == 4 && spec_u32_to_le_bytes(v.new_files[k].up2).len() == 4);
            if o < 4 {
                assert(fb[o] == spec_u32_to_le_bytes(v.new_files[k].id)[o]);
                assert(s.subrange(4 + 12 * k, 8 + 12 * k)[o] == s[4 + 12 * k + o]);
            } else if o < 8 {
                assert(fb[o] == spec_u32_to_le_bytes(v.new_files[k].up1)[o - 4]);
                assert(s.subrange(8 + 12 * k, 12 + 12 * k)[o - 4] == s[4 + 12 * k + o]);
            } else {
                assert(fb[o] == spec_u32_to_le_bytes(v.new_files[k].up2)[o - 8]);
                assert(s.subrange(12 + 12 * k, 16 + 12 * k)[o - 8] == s[4 + 12 * k + o]);
            }
            assert(fb[o] == s[p]);
        } else if p < 8 + 12 * nf {
            assert(s.subrange(4 + 12 * nf, 8 + 12 * nf)[p - 4 - 12 * nf] == s[p]);
            assert(e[p] == spec_u32_to_le_bytes(v.deleted_files.len() as u32)[p - 4 - 12 * nf]);
        } else {
            let k = (p - 8 - 12 * nf) / 4;
            let o = (p - 8 - 12 * nf) % 4;
            assert(0 <= k < nd && 0 <= o < 4 && p == 8 + 12 * nf + 4 * k + o)
                by (nonlinear_arith)
                requires
                    k == (p - 8 - 12 * nf) / 4,
                    o == (p - 8 - 12 * nf) % 4,
                    8 + 12 * nf <= p < 8 + 12 * nf + 4 * nd,
                    s.len() == 8 + 12 * nf + 4 * nd,
            ;
            assert(spec_enc_dels(v.deleted_files)[4 * k + o] == spec_u32_to_le_bytes(
                v.deleted_files[k],
            )[o]);
            assert(e[p] == spec_enc_dels(v.deleted_files)[p - 8 - 12 * nf]);
            assert(p - 8 - 12 * nf == 4 * k + o);
            assert(spec_u32_to_le_bytes(v.deleted_files[k]) =~= s.subrange(
                8 + 12 * nf + 4 * k,
                12 + 12 * nf + 4 * k,
            ));
            assert(s.subrange(8 + 12 * nf + 4 * k, 12 + 12 * nf + 4 * k)[o] == s[8 + 12 * nf + 4
                * k + o]);
        }
    }
    assert(s =~= e);
}

/// Byte `p` of an edit's encoding, by region.
proof fn lemma_enc_edit_byte(v: VersionEditView, p: int)
    requires
        0 <= p < spec_enc_edit(v).len(),
    ensures
        spec_enc_edit(v).len() == 8 + 12 * v.new_files.len() + 4 * v.deleted_files.len(),
        p < 4 ==> spec_enc_edit(v)[p] == spec_u32_to_le_bytes(v.new_files.len() as u32)[p],
        4 <= p < 4 + 12 * v.new_files.len() ==> spec_enc_edit(v)[p] == spec_enc_newfiles(
            v.new_files,
        )[p - 4],
        4 + 12 * v.new_files.len() <= p < 8 + 12 * v.new_files.len() ==> spec_enc_edit(v)[p]
            == spec_u32_to_le_bytes(v.deleted_files.len() as u32)[p - 4 - 12 * v.new_files.len()],
        8 + 12 * v.new_files.len() <= p ==> spec_enc_edit(v)[p] == spec_enc_dels(
            v.deleted_files,
        )[p - 8 - 12 * v.new_files.len()],
        forall|k: int, o: int|
            0 <= k < v.new_files.len() && 0 <= o < 12 ==> #[trigger] spec_enc_newfiles(
                v.new_files,
            )[12 * k + o] == spec_enc_newfile(v.new_files[k])[o],
        forall|k: int, o: int|
            0 <= k < v.deleted_files.len() && 0 <= o < 4 ==> #[trigger] spec_enc_dels(
                v.deleted_files,
            )[4 * k + o] == spec_u32_to_le_bytes(v.deleted_files[k])[o],
{
    lemma_auto_spec_u32_to_from_le_bytes();
    lemma_enc_newfiles_len(v.new_files);
    lemma_enc_dels_len(v.deleted_files);
    assert forall|k: int, o: int|
        0 <= k < v.new_files.len() && 0 <= o < 12 implies #[trigger] spec_enc_newfiles(
        v.new_files,
    )[12 * k + o] == spec_enc_newfile(v.new_files[k])[o] by {
        lemma_enc_newfiles_index(v.new_files, k, o);
    }
    assert forall|k: int, o: int|
        0 <= k < v.deleted_files.len() && 0 <= o < 4 implies #[trigger] spec_enc_dels(
        v.deleted_files,
    )[4 * k + o] == spec_u32_to_le_bytes(v.deleted_files[k])[o] by {
        lemma_enc_dels_index(v.deleted_files, k, o);
    }
}

proof fn lemma_enc_newfiles_index(fs: Seq<NewFile>, k: int, o: int)
    requires
        0 <= k < fs.len(),
        0 <= o < 12,
    ensures
        spec_enc_newfiles(fs)[12 * k + o] == spec_enc_newfile(fs[k])[o],
    decreases k,
{
    lemma_auto_spec_u32_to_from_le_bytes();
    lemma_enc_newfiles_len(fs);
    if k == 0 {
        lemma_enc_newfiles_len(fs.drop_first());
    } else {
        lemma_enc_newfiles_index(fs.drop_first(), k - 1, o);
        assert(fs.drop_first()[k - 1] == fs[k]);
    }
}

proof fn lemma_enc_dels_index(ds: Seq<u32>, k: int, o: int)
    requires
        0 <= k < ds.len(),
        0 <= o < 4,
    ensures
        spec_enc_dels(ds)[4 * k + o] == spec_u32_to_le_bytes(ds[k])[o],
    decreases k,
{
    lemma_auto_spec_u32_to_from_le_bytes();
    lemma_enc_dels_len(ds);
    if k == 0 {
        lemma_enc_dels_len(ds.drop_first());
    } else {
        lemma_enc_dels_index(ds.drop_first(), k - 1, o);
        assert(ds.drop_first()[k - 1] == ds[k]);
    }
}

/// The wire form of a record inside a manifest file: a u64 little-endian
/// length, then the record bytes.
pub open spec fn spec_frame(payload: Seq<u8>) -> Seq<u8> {
    spec_u64_to_le_bytes(payload.len() as u64) + payload
}

/// Frames an already-encoded record.
pub fn frame_record(payload: &Vec<u8>) -> (r: Vec<u8>)
    ensures
        r@ == spec_frame(payload@),
{
    let mut out: Vec<u8> = Vec::new();
    put_u64(&mut out, payload.len() as u64);
    let mut body = copy_bytes(payload);
    out.append(&mut body);
    out
}

/// The parse of a current-pointer file: its first four bytes as a u32
/// little-endian file number.
pub open spec fn spec_parse_current(b: Seq<u8>) -> Option<u32> {
    if b.len() >= 4 {
        Some(spec_u32_from_le_bytes(b.subrange(0, 4)))
    } else {
        None
    }
}

/// The edit a record's bytes hold; nothing when they are not an edit's
/// wire form.
pub open spec fn spec_edit_of(b: Seq<u8>) -> Option<VersionEditView> {
    if exists|e: VersionEditView| b == spec_enc_edit(e) && edit_wf(e) {
        Some(choose|e: VersionEditView| b == spec_enc_edit(e) && edit_wf(e))
    } else {
        None
    }
}

/// Two well-formed edits with the same wire form are the same edit.
pub proof fn lemma_enc_edit_injective(e1: VersionEditView, e2: VersionEditView)
    requires
        edit_wf(e1),
        edit_wf(e2),
        spec_enc_edit(e1) == spec_enc_edit(e2),
    ensures
        e1 == e2,
{
    lemma_auto_spec_u32_to_from_le_bytes();
    let s = spec_enc_edit(e1);
    lemma_enc_newfiles_len(e1.new_files);
    lemma_enc_dels_len(e1.deleted_files);
    lemma_enc_newfiles_len(e2.new_files);
    lemma_enc_dels_len(e2.deleted_files);
    let nf1 = e1.new_files.len() as int;
    let nf2 = e2.new_files.len() as int;
    assert(s.subrange(0, 4) =~= spec_u32_to_le_bytes(e1.new_files.len() as u32)) by {
        if 0 <= 0 < s.len() {
            lemma_enc_edit_byte(e1, 0);
        }
        assert(forall|p: int| 0 <= p < 4 ==> s[p] == spec_u32_to_le_bytes(
            e1.new_files.len() as u32,
        )[p]) by {
            assert forall|p: int| 0 <= p < 4 implies s[p] == spec_u32_to_le_bytes(
                e1.new_files.len() as u32,
            )[p] by {
                lemma_enc_edit_byte(e1, p);
            }
        }
    }
    assert(s.subrange(0, 4) =~= spec_u32_to_le_bytes(e2.new_files.len() as u32)) by {
        assert forall|p: int| 0 <= p < 4 implies s[p] == spec_u32_to_le_bytes(
            e2.new_files.len() as u32,
        )[p] by {
            lemma_enc_edit_byte(e2, p);
        }
    }
    assert(e1.new_files.len() == e2.new_files.len());
    let nf = nf1;
    assert(e1.deleted_files.len() == e2.deleted_files.len());
    assert forall|k: int| 0 <= k < nf implies e1.new_files[k] == e2.new_files[k] by {
        lemma_newfile_field_from_bytes(e1, k);
        lemma_newfile_field_from_bytes(e2, k);
    }
    assert forall|k: int| 0 <= k < e1.deleted_files.len() implies e1.deleted_files[k]
        == e2.deleted_files[k] by {
        lemma_del_field_from_bytes(e1, k);
        lemma_del_field_from_bytes(e2, k);
    }
    assert(e1.new_files =~= e2.new_files);
    assert(e1.deleted_files =~= e2.deleted_files);
}

/// New-file entry `k` of an edit can be read back from its encoding.
proof fn lemma_newfile_field_from_bytes(e: VersionEditView, k: int)
    requires
        edit_wf(e),
        0 <= k < e.new_files.len(),
    ensures
        e.new_files[k].id == spec_u32_from_le_bytes(
            spec_enc_edit(e).subrange(4 + 12 * k, 8 + 12 * k),
        ),
        e.new_files[k].up1 == spec_u32_from_le_bytes(
            spec_enc_edit(e).subrange(8 + 12 * k, 12 + 12 * k),
        ),
        e.new_files[k].up2 == spec_u32_from_le_bytes(
            spec_enc_edit(e).subrange(12 + 12 * k, 16 + 12 * k),
        ),
{
    lemma_auto_spec_u32_to_from_le_bytes();
    let s = spec_enc_edit(e);
    lemma_enc_newfiles_len(e.new_files);
    lemma_enc_dels_len(e.deleted_files);
    let f = e.new_files[k];
    assert(s.subrange(4 + 12 * k, 8 + 12 * k) =~= spec_u32_to_le_bytes(f.id)) by {
        assert forall|o: int| 0 <= o < 4 implies s[4 + 12 * k + o] == spec_u32_to_le_bytes(
            f.id,
        )[o] by {
            lemma_enc_edit_byte(e, 4 + 12 * k + o);
            assert(spec_enc_newfiles(e.new_files)[12 * k + o] == spec_enc_newfile(f)[o]);
            assert(spec_enc_newfile(f)[o] == spec_u32_to_le_bytes(f.id)[o]);
        }
    }
    assert(s.subrange(8 + 12 * k, 12 + 12 * k) =~= spec_u32_to_le_bytes(f.up1)) by {
        assert forall|o: int| 0 <= o < 4 implies s[8 + 12 * k + o] == spec_u32_to_le_bytes(
            f.up1,
        )[o] by {
            lemma_enc_edit_byte(e, 8 + 12 * k + o);
            assert(spec_enc_newfiles(e.new_files)[12 * k + (o + 4)] == spec_enc_newfile(f)[o + 4]);
            assert(spec_enc_newfile(f)[o + 4] == spec_u32_to_le_bytes(f.up1)[o]);
        }
    }
    assert(s.subrange(12 + 12 * k, 16 + 12 * k) =~= spec_u32_to_le_bytes(f.up2)) by {
        assert forall|o: int| 0 <= o < 4 implies s[12 + 12 * k + o] == spec_u32_to_le_bytes(
            f.up2,
        )[o] by {
            lemma_enc_edit_byte(e, 12 + 12 * k + o);
            assert(spec_enc_newfiles(e.new_files)[12 * k + (o + 8)] == spec_enc_newfile(f)[o + 8]);
            assert(spec_enc_newfile(f)[o + 8] == spec_u32_to_le_bytes(f.up2)[o]);
        }
    }
}

/// Deleted number `k` of an edit can be read back from its encoding.
proof fn lemma_del_field_from_bytes(e: VersionEditView, k: int)
    requires
        edit_wf(e),
        0 <= k < e.deleted_files.len(),
    ensures
        e.deleted_files[k] == spec_u32_from_le_bytes(
            spec_enc_edit(e).subrange(
                8 + 12 * e.new_files.len() as int + 4 * k,
                12 + 12 * e.new_files.len() as int + 4 * k,
            ),
        ),
{
    lemma_auto_spec_u32_to_from_le_bytes();
    let s = spec_enc_edit(e);
    lemma_enc_newfiles_len(e.new_files);
    lemma_enc_dels_len(e.deleted_files);
    let nf = e.new_files.len() as int;
    let d = e.deleted_files[k];
    assert(s.subrange(8 + 12 * nf + 4 * k, 12 + 12 * nf + 4 * k) =~= spec_u32_to_le_bytes(d)) by {
        assert forall|o: int| 0 <= o < 4 implies s[8 + 12 * nf + 4 * k + o]
            == spec_u32_to_le_bytes(d)[o] by {
            lemma_enc_edit_byte(e, 8 + 12 * nf + 4 * k + o);
            assert(spec_enc_dels(e.deleted_files)[4 * k + o] == spec_u32_to_le_bytes(d)[o]);
        }
    }
}

/// The records a manifest file holds, in order: length-framed edits until
/// a clean end; nothing when a frame or a record is malformed.
pub open spec fn spec_parse_manifest(s: Seq<u8>) -> Option<Seq<VersionEditView>>
    decreases s.len(),
{
    if s.len() == 0 {
        Some(Seq::empty())
    } else if s.len() < 8 {
        None
    } else {
        let l = spec_u64_from_le_bytes(s.subrange(0, 8)) as int;
        if s.len() - 8 < l {
            None
        } else {
            match spec_edit_of(s.subrange(8, 8 + l)) {
                Some(e) => match spec_parse_manifest(s.skip(8 + l)) {
                    Some(rest) => Some(seq![e] + rest),
                    None => None,
                },
                None => None,
            }
        }
    }
}

/// The modelled directory a manifest log lives in: numbered manifest
/// files, at most one current pointer, and any leftover temporary files.
/// Tests and callers build its states directly, including the states a
/// crash can leave behind.
#[derive(Debug)]
pub struct MemDir {
    /// The current-pointer file's bytes, when the file exists.
    pub current: Option<Vec<u8>>,
    /// The numbered manifest files: number and bytes.
    pub manifests: Vec<(u32, Vec<u8>)>,
    /// Numbers of leftover temporary rename files.
    pub temps: Vec<u32>,
}

impl MemDir {
    /// An empty directory: a fresh store.
    pub fn new() -> (r: Self)
        ensures
            r.wf(),
            r.current is None,
            r.manifests@.len() == 0,
            r.temps@.len() == 0,
    {
        MemDir { current: None, manifests: Vec::new(), temps: Vec::new() }
    }

    /// Every manifest file has its own number.
    pub open spec fn wf(&self) -> bool {
        forall|i: int, j: int|
            0 <= i < j < self.manifests@.len() ==> (#[trigger] self.manifests@[i]).0 != (
            #[trigger] self.manifests@[j]).0
    }

    /// Whether a manifest file with this number exists.
    pub open spec fn has_file(&self, n: u32) -> bool {
        exists|i: int| 0 <= i < self.manifests@.len() && (#[trigger] self.manifests@[i]).0 == n
    }

    /// The bytes of the manifest file with this number.
    pub open spec fn file_bytes(&self, n: u32) -> Seq<u8> {
        let i = choose|i: int|
            0 <= i < self.manifests@.len() && (#[trigger] self.manifests@[i]).0 == n;
        self.manifests@[i].1@
    }

    pub proof fn lemma_file_bytes_at(&self, i: int)
        requires
            self.wf(),
            0 <= i < self.manifests@.len(),
        ensures
            self.has_file(self.manifests@[i].0),
            self.file_bytes(self.manifests@[i].0) == self.manifests@[i].1@,
    {
        let n = self.manifests@[i].0;
        assert(0 <= i < self.manifests@.len() && self.manifests@[i].0 == n);
        let j = choose|j: int|
            0 <= j < self.manifests@.len() && (#[trigger] self.manifests@[j]).0 == n;
        if j != i {
            assert(self.manifests@[i].0 != self.manifests@[j].0);
        }
    }
}

/// Finds the index of the manifest file numbered `n`.
fn find_manifest(dir: &MemDir, n: u32) -> (r: Option<usize>)
    ensures
        r matches Some(i) ==> i < dir.manifests@.len() && dir.manifests@[i as int].0 == n,
        r is None ==> !dir.has_file(n),
{
    let len = dir.manifests.len();
    let mut i: usize = 0;
    while i < len
        invariant
            i <= len,
            len == dir.manifests@.len(),
            forall|j: int| 0 <= j < i ==> (#[trigger] dir.manifests@[j]).0 != n,
        decreases len - i,
    {
        if dir.manifests[i].0 == n {
            return Some(i);
        }
        i += 1;
    }
    None
}

/// Creates — or truncates — the manifest file numbered `n`.
fn create_manifest(dir: &mut MemDir, n: u32) -> (nothing: ())
    requires
        old(dir).wf(),
    ensures
        final(dir).wf(),
        final(dir).has_file(n),
        final(dir).file_bytes(n) == Seq::<u8>::empty(),
        forall|x: u32|
            x != n ==> (final(dir).has_file(x) == old(dir).has_file(x)) && (old(dir).has_file(x)
                ==> final(dir).file_bytes(x) == old(dir).file_bytes(x)),
        final(dir).current == old(dir).current,
        final(dir).temps == old(dir).temps,
{
    let entry: (u32, Vec<u8>) = (n, Vec::new());
    match find_manifest(dir, n) {
        Some(i) => {
            let ghost prev = dir.manifests@;
            let _old_entry = dir.manifests.remove(i);
            dir.manifests.insert(i, entry);
            proof {
                assert(dir.manifests@ =~= prev.update(i as int, (n, entry.1)));
                lemma_dir_update_frame(*old(dir), *dir, i as int, n);
            }
        },
        None => {
            let ghost prev = dir.manifests@;
            dir.manifests.push(entry);
            proof {
                let m = dir.manifests@;
                assert(m.len() == prev.len() + 1 && m.drop_last() =~= prev && m.last() == (
                n,
                entry.1,
                ));
                assert forall|i: int, j: int|
                    0 <= i < j < m.len() implies (#[trigger] m[i]).0 != (#[trigger] m[j]).0 by {
                    if j < m.len() - 1 {
                        assert(m[i] == prev[i] && m[j] == prev[j]);
                    } else {
                        assert(m[j].0 == n);
                        assert(m[i] == prev[i]);
                        assert(!old(dir).has_file(n));
                    }
                }
                dir.lemma_file_bytes_at(m.len() - 1);
                assert forall|x: u32| x != n implies (final(dir).has_file(x) == old(
                    dir,
                ).has_file(x)) && (old(dir).has_file(x) ==> final(dir).file_bytes(x) == old(
                    dir,
                ).file_bytes(x)) by {
                    lemma_dir_entries_agree(*old(dir), *dir, x);
                }
            }
        },
    }
}

/// After replacing entry `i` with one numbered `n`, every other number's
/// file is untouched.
proof fn lemma_dir_update_frame(pre: MemDir, post: MemDir, i: int, n: u32)
    requires
        pre.wf(),
        0 <= i < pre.manifests@.len(),
        pre.manifests@[i].0 == n,
        post.manifests@.len() == pre.manifests@.len(),
        post.manifests@[i].0 == n,
        forall|j: int|
            0 <= j < pre.manifests@.len() && j != i ==> #[trigger] post.manifests@[j]
                == pre.manifests@[j],
    ensures
        post.wf(),
        post.has_file(n),
        post.file_bytes(n) == post.manifests@[i].1@,
        forall|x: u32|
            x != n ==> (post.has_file(x) == pre.has_file(x)) && (pre.has_file(x)
                ==> post.file_bytes(x) == pre.file_bytes(x)),
{
    assert forall|a: int, b: int|
        0 <= a < b < post.manifests@.len() implies (#[trigger] post.manifests@[a]).0 != (
    #[trigger] post.manifests@[b]).0 by {
        assert(post.manifests@[a].0 == pre.manifests@[a].0);
        assert(post.manifests@[b].0 == pre.manifests@[b].0);
    }
    post.lemma_file_bytes_at(i);
    assert forall|x: u32|
        x != n implies (post.has_file(x) == pre.has_file(x)) && (pre.has_file(x)
        ==> post.file_bytes(x) == pre.file_bytes(x)) by {
        lemma_dir_entries_agree(pre, post, x);
    }
}

/// When the entries holding number `x` agree between two directories, so
/// do its presence and bytes.
proof fn lemma_dir_entries_agree(pre: MemDir, post: MemDir, x: u32)
    requires
        pre.wf(),
        post.wf(),
        forall|j: int|
            0 <= j < pre.manifests@.len() && (#[trigger] pre.manifests@[j]).0 == x
                ==> j < post.manifests@.len() && post.manifests@[j] == pre.manifests@[j],
        forall|j: int|
            0 <= j < post.manifests@.len() && (#[trigger] post.manifests@[j]).0 == x
                ==> j < pre.manifests@.len() && post.manifests@[j] == pre.manifests@[j],
    ensures
        post.has_file(x) == pre.has_file(x),
        pre.has_file(x) ==> post.file_bytes(x) == pre.file_bytes(x),
{
    if pre.has_file(x) {
        let i = choose|i: int|
            0 <= i < pre.manifests@.len() && (#[trigger] pre.manifests@[i]).0 == x;
        assert(post.manifests@[i] == pre.manifests@[i]);
        assert(post.has_file(x));
        pre.lemma_file_bytes_at(i);
        post.lemma_file_bytes_at(i);
    }
    if post.has_file(x) {
        let i = choose|i: int|
            0 <= i < post.manifests@.len() && (#[trigger] post.manifests@[i]).0 == x;
        assert(pre.manifests@[i] == post.manifests@[i]);
        assert(pre.has_file(x));
    }
}

/// Appends one framed record to the manifest file numbered `n`; returns
/// the framed length.
fn append_record(dir: &mut MemDir, n: u32, e: &VersionEdit) -> (w: u64)
    requires
        old(dir).wf(),
        old(dir).has_file(n),
        edit_wf(e@),
    ensures
        final(dir).wf(),
        final(dir).has_file(n),
        final(dir).file_bytes(n) == old(dir).file_bytes(n) + spec_frame(spec_enc_edit(e@)),
        forall|x: u32|
            x != n ==> (final(dir).has_file(x) == old(dir).has_file(x)) && (old(dir).has_file(x)
                ==> final(dir).file_bytes(x) == old(dir).file_bytes(x)),
        final(dir).current == old(dir).current,
        final(dir).temps == old(dir).temps,
        w == 8 + spec_enc_edit(e@).len(),
{
    proof {
        lemma_enc_newfiles_len(e@.new_files);
        lemma_enc_dels_len(e@.deleted_files);
        lemma_auto_spec_u64_to_from_le_bytes();
    }
    let payload = e.encode_to_vec();
    let mut frame = frame_record(&payload);
    let w = frame.len() as u64;
    match find_manifest(dir, n) {
        Some(i) => {
            let ghost prev = dir.manifests@;
            proof {
                old(dir).lemma_file_bytes_at(i as int);
            }
            let mut entry = dir.manifests.remove(i);
            entry.1.append(&mut frame);
            dir.manifests.insert(i, entry);
            proof {
                assert(dir.manifests@.len() == prev.len());
                assert(dir.manifests@[i as int].0 == n);
                assert(forall|j: int|
                    0 <= j < prev.len() && j != i ==> #[trigger] dir.manifests@[j] == prev[j]);
                lemma_dir_update_frame(*old(dir), *dir, i as int, n);
            }
            w
        },
        None => {
            proof {
                assert(false);
            }
            0
        },
    }
}

/// Atomically publishes `n` as the current file number: the new pointer is
/// written to a temporary file, which replaces the pointer file in one
/// rename.
fn set_current(dir: &mut MemDir, n: u32) -> (nothing: ())
    requires
        old(dir).wf(),
    ensures
        final(dir).wf(),
        final(dir).current matches Some(b) && b@ == spec_u32_to_le_bytes(n),
        final(dir).manifests == old(dir).manifests,
        final(dir).temps@ == old(dir).temps@,
{
    dir.temps.push(n);
    let bytes = u32_to_le_bytes(n);
    dir.current = Some(bytes);
    // the rename consumes the temporary file
    let _ = dir.temps.pop();
    proof {
        assert(dir.temps@ =~= old(dir).temps@);
    }
}

/// The default threshold, in bytes, past which the active manifest file
/// is rolled.
pub const MAX_MANIFEST_SIZE: u64 = 134217728;

/// Which numbered manifest files survive a cleanup: those at or above the
/// current number; none when no current pointer exists.
pub open spec fn spec_live_manifests(s: Seq<(u32, Vec<u8>)>, cur: Option<u32>) -> Seq<
    (u32, Vec<u8>),
>
    decreases s.len(),
{
    if s.len() == 0 {
        Seq::empty()
    } else {
        spec_live_manifests(s.drop_last(), cur) + (if (match cur {
            Some(c) => s.last().0 >= c,
            None => false,
        }) {
            seq![s.last()]
        } else {
            Seq::empty()
        })
    }
}

/// Deletes leftover temporary files and every obsolete manifest file:
/// those below the current number, or all of them when construction never
/// published a pointer.
fn cleanup_obsolete_files(dir: &mut MemDir, cur: Option<u32>) -> (nothing: ())
    requires
        old(dir).wf(),
    ensures
        final(dir).wf(),
        final(dir).temps@.len() == 0,
        final(dir).manifests@ == spec_live_manifests(old(dir).manifests@, cur),
        final(dir).current == old(dir).current,
{
    dir.temps = Vec::new();
    let ghost src = dir.manifests@;
    let mut kept: Vec<(u32, Vec<u8>)> = Vec::new();
    proof {
        assert(src.take(0) =~= Seq::<(u32, Vec<u8>)>::empty());
    }
    while dir.manifests.len() > 0
        invariant
            dir.manifests@.len() <= src.len(),
            dir.manifests@ == src.skip(src.len() - dir.manifests@.len()),
            kept@ == spec_live_manifests(src.take(src.len() - dir.manifests@.len()), cur),
            dir.current == old(dir).current,
            dir.temps@.len() == 0,
        decreases dir.manifests@.len(),
    {
        let ghost done = src.len() - dir.manifests@.len();
        let e = dir.manifests.remove(0);
        proof {
            assert(e == src[done]);
            assert(dir.manifests@ =~= src.skip(src.len() - dir.manifests@.len()));
        }
        let keep = match cur {
            Some(c) => e.0 >= c,
            None => false,
        };
        let ghost prevk = kept@;
        if keep {
            kept.push(e);
        }
        proof {
            let t1 = src.take(done + 1);
            assert(t1.drop_last() =~= src.take(done));
            assert(t1.last() == src[done]);
            if keep {
                assert(spec_live_manifests(t1, cur) =~= spec_live_manifests(src.take(done), cur)
                    + seq![src[done]]);
                assert(kept@ =~= spec_live_manifests(t1, cur));
            } else {
                assert(spec_live_manifests(t1, cur) =~= spec_live_manifests(src.take(done), cur)
                    + Seq::<(u32, Vec<u8>)>::empty());
                assert(kept@ =~= spec_live_manifests(t1, cur));
            }
        }
    }
    proof {
        assert(src.take(src.len() as int) =~= src);
    }
    dir.manifests = kept;
    proof {
        lemma_live_manifests_sub(src, cur);
        assert forall|a: int, b: int|
            0 <= a < b < dir.manifests@.len() implies (#[trigger] dir.manifests@[a]).0 != (
        #[trigger] dir.manifests@[b]).0 by {
            let (ia, ib) = lemma_live_manifests_origin(src, cur, a, b);
        }
    }
}

/// Every kept entry comes from the source, and distinct kept positions
/// come from distinct source positions, in order.
proof fn lemma_live_manifests_origin(
    s: Seq<(u32, Vec<u8>)>,
    cur: Option<u32>,
    a: int,
    b: int,
) -> (r: (int, int))
    requires
        0 <= a < b < spec_live_manifests(s, cur).len(),
    ensures
        0 <= r.0 < r.1 < s.len(),
        spec_live_manifests(s, cur)[a] == s[r.0],
        spec_live_manifests(s, cur)[b] == s[r.1],
    decreases s.len(),
{
    let live = spec_live_manifests(s, cur);
    let prev = spec_live_manifests(s.drop_last(), cur);
    if b < prev.len() {
        let (ia, ib) = lemma_live_manifests_origin(s.drop_last(), cur, a, b);
        assert(s.drop_last()[ia] == s[ia] && s.drop_last()[ib] == s[ib]);
        (ia, ib)
    } else {
        assert(live[b] == s.last());
        let ia = lemma_live_manifests_origin_one(s.drop_last(), cur, a);
        assert(s.drop_last()[ia] == s[ia]);
        (ia, s.len() - 1)
    }
}

/// Every kept entry comes from the source.
proof fn lemma_live_manifests_origin_one(s: Seq<(u32, Vec<u8>)>, cur: Option<u32>, a: int) -> (r:
    int)
    requires
        0 <= a < spec_live_manifests(s, cur).len(),
    ensures
        0 <= r < s.len(),
        spec_live_manifests(s, cur)[a] == s[r],
    decreases s.len(),
{
    let prev = spec_live_manifests(s.drop_last(), cur);
    if a < prev.len() {
        let ia = lemma_live_manifests_origin_one(s.drop_last(), cur, a);
        assert(s.drop_last()[ia] == s[ia]);
        ia
    } else {
        s.len() - 1
    }
}

/// The kept entries never outnumber the source.
proof fn lemma_live_manifests_sub(s: Seq<(u32, Vec<u8>)>, cur: Option<u32>)
    ensures
        spec_live_manifests(s, cur).len() <= s.len(),
    decreases s.len(),
{
    if s.len() > 0 {
        lemma_live_manifests_sub(s.drop_last(), cur);
    }
}

/// Tracks the manifest file currently being appended to.
struct ManifestWriter {
    file_num: u32,
    size: u64,
}

/// The manifest log's in-memory state: the published file number, the
/// active writer, and the rolling threshold.
pub struct Manifest {
    /// The size, in bytes, past which the next append rolls to a new file.
    pub max_file_size: u64,
    next_file_id: u32,
    current_file_num: Option<u32>,
    writer: Option<ManifestWriter>,
}

impl Manifest {
    /// The published current file number.
    pub closed spec fn spec_current(&self) -> Option<u32> {
        self.current_file_num
    }

    /// The active writer's file number and tracked size.
    pub closed spec fn spec_writer(&self) -> Option<(u32, u64)> {
        match self.writer {
            Some(w) => Some((w.file_num, w.size)),
            None => None,
        }
    }

    /// The next free auxiliary file id.
    pub closed spec fn spec_next_file_id(&self) -> u32 {
        self.next_file_id
    }

    /// The rolling threshold.
    pub closed spec fn spec_max(&self) -> u64 {
        self.max_file_size
    }

    /// The manifest state is consistent with the directory: the writer,
    /// when open, appends to the published file, which exists.
    pub open spec fn wf(&self, dir: &MemDir) -> bool {
        match self.spec_writer() {
            Some(w) => dir.has_file(w.0) && self.spec_current() == Some(w.0),
            None => true,
        }
    }

    /// The published current file number, read out.
    pub fn current_file_num(&self) -> (r: Option<u32>)
        ensures
            r == self.spec_current(),
    {
        self.current_file_num
    }

    /// Opens the manifest in a directory: reads the current pointer, then
    /// deletes leftover temporary files and obsolete manifest files. A
    /// directory without a pointer is a fresh store.
    pub fn open(dir: &mut MemDir) -> (r: Result<Manifest, Error>)
        requires
            old(dir).wf(),
        ensures
            old(dir).current is None ==> (r matches Ok(m) && m.spec_current() is None),
            old(dir).current matches Some(b) ==> {
                &&& b@.len() >= 4 ==> (r matches Ok(m) && m.spec_current() == Some(
                    spec_u32_from_le_bytes(b@.subrange(0, 4)),
                ))
                &&& b@.len() < 4 ==> r == Err::<Manifest, Error>(Error::Corrupted) && *final(dir)
                    == *old(dir)
            },
            r matches Ok(m) ==> {
                &&& final(dir).wf()
                &&& m.wf(final(dir))
                &&& m.spec_writer() is None
                &&& m.spec_next_file_id() == 0
                &&& m.spec_max() == MAX_MANIFEST_SIZE
                &&& final(dir).current == old(dir).current
                &&& final(dir).temps@.len() == 0
                &&& final(dir).manifests@ == spec_live_manifests(
                    old(dir).manifests@,
                    m.spec_current(),
                )
            },
    {
        let current_file_num: Option<u32> = match &dir.current {
            None => None,
            Some(b) => {
                if b.len() < 4 {
                    return Err(Error::Corrupted);
                }
                Some(u32_from_le_bytes(slice_subrange(b.as_slice(), 0, 4)))
            },
        };
        cleanup_obsolete_files(dir, current_file_num);
        Ok(
            Manifest {
                max_file_size: MAX_MANIFEST_SIZE,
                next_file_id: 0,
                current_file_num,
                writer: None,
            },
        )
    }

    /// Hands out the next auxiliary file id.
    pub fn next_file_id(&mut self) -> (r: u32)
        requires
            old(self).spec_next_file_id() < u32::MAX,
        ensures
            r == old(self).spec_next_file_id(),
            final(self).spec_next_file_id() == old(self).spec_next_file_id() + 1,
            final(self).spec_current() == old(self).spec_current(),
            final(self).spec_writer() == old(self).spec_writer(),
            final(self).spec_max() == old(self).spec_max(),
    {
        let id = self.next_file_id;
        self.next_file_id = self.next_file_id + 1;
        id
    }

    /// The auxiliary file id that would be handed out next.
    pub fn now(&self) -> (r: u32)
        ensures
            r == self.spec_next_file_id(),
    {
        self.next_file_id
    }

    /// Resets the auxiliary file id counter.
    pub fn reset_next_file_id(&mut self, next_id: u32) -> (nothing: ())
        ensures
            final(self).spec_next_file_id() == next_id,
            final(self).spec_current() == old(self).spec_current(),
            final(self).spec_writer() == old(self).spec_writer(),
            final(self).spec_max() == old(self).spec_max(),
    {
        self.next_file_id = next_id;
    }
}

impl Manifest {
    /// The file number a roll would publish next.
    pub open spec fn spec_roll_num(&self) -> u32 {
        (match self.spec_current() {
            Some(c) => c + 1,
            None => 1,
        }) as u32
    }

    /// Whether the next append rolls to a new file.
    pub open spec fn spec_needs_roll(&self) -> bool {
        match self.spec_writer() {
            None => true,
            Some(w) => w.1 > self.spec_max(),
        }
    }

    /// Records one version edit durably.
    ///
    /// When no file is open yet, or the open file has outgrown the
    /// threshold, this rolls: it creates the next numbered file, writes
    /// the full-state `snapshot` record first — so the new file replays on
    /// its own — then the edit, and only then atomically publishes the new
    /// number as current. Otherwise the edit is appended to the open file.
    /// The current number never decreases.
    pub fn record_version_edit(
        &mut self,
        dir: &mut MemDir,
        ve: &VersionEdit,
        snapshot: &VersionEdit,
    ) -> (r: Result<(), Error>)
        requires
            old(dir).wf(),
            old(self).wf(old(dir)),
            edit_wf(ve@),
            edit_wf(snapshot@),
            old(self).spec_current() matches Some(c) ==> c < u32::MAX,
            old(self).spec_max() + 0x20_0000 <= u64::MAX,
        ensures
            r is Ok,
            final(dir).wf(),
            final(self).wf(final(dir)),
            final(self).spec_max() == old(self).spec_max(),
            final(self).spec_next_file_id() == old(self).spec_next_file_id(),
            final(dir).temps@ == old(dir).temps@,
            old(self).spec_current() matches Some(c) ==> (final(self).spec_current()
                matches Some(c2) && c2 >= c),
            old(self).spec_needs_roll() ==> {
                let n = old(self).spec_roll_num();
                &&& final(self).spec_current() == Some(n)
                &&& final(self).spec_writer() matches Some(w) && w.0 == n
                &&& final(dir).current matches Some(b) && b@ == spec_u32_to_le_bytes(n)
                &&& final(dir).has_file(n)
                &&& final(dir).file_bytes(n) == spec_frame(spec_enc_edit(snapshot@)) + spec_frame(
                    spec_enc_edit(ve@),
                )
                &&& forall|x: u32|
                    x != n ==> (final(dir).has_file(x) == old(dir).has_file(x)) && (old(
                    dir,
                ).has_file(x) ==> final(dir).file_bytes(x) == old(dir).file_bytes(x))
            },
            !old(self).spec_needs_roll() ==> {
                let n = old(self).spec_writer().unwrap().0;
                &&& final(self).spec_current() == old(self).spec_current()
                &&& final(self).spec_writer() matches Some(w) && w.0 == n && w.1 == old(
                    self,
                ).spec_writer().unwrap().1 + 8 + spec_enc_edit(ve@).len()
                &&& final(dir).current == old(dir).current
                &&& final(dir).file_bytes(n) == old(dir).file_bytes(n) + spec_frame(
                    spec_enc_edit(ve@),
                )
                &&& forall|x: u32|
                    x != n ==> (final(dir).has_file(x) == old(dir).has_file(x)) && (old(
                    dir,
                ).has_file(x) ==> final(dir).file_bytes(x) == old(dir).file_bytes(x))
            },
    {
        proof {
            lemma_auto_spec_u32_to_from_le_bytes();
            lemma_enc_newfiles_len(ve@.new_files);
            lemma_enc_dels_len(ve@.deleted_files);
            lemma_enc_newfiles_len(snapshot@.new_files);
            lemma_enc_dels_len(snapshot@.deleted_files);
            assert(spec_enc_edit(ve@).len() <= 0x10_0000);
            assert(spec_enc_edit(snapshot@).len() <= 0x10_0000);
        }
        let roll = match &self.writer {
            None => true,
            Some(w) => w.size > self.max_file_size,
        };
        if roll {
            let file_num = match self.current_file_num {
                Some(c) => c + 1,
                None => 1,
            };
            create_manifest(dir, file_num);
            let w1 = append_record(dir, file_num, snapshot);
            let w2 = append_record(dir, file_num, ve);
            set_current(dir, file_num);
            self.current_file_num = Some(file_num);
            self.writer = Some(ManifestWriter { file_num, size: w1 + w2 });
            proof {
                assert(final(dir).file_bytes(file_num) =~= spec_frame(spec_enc_edit(snapshot@))
                    + spec_frame(spec_enc_edit(ve@)));
            }
            Ok(())
        } else {
            let file_num = match &self.writer {
                Some(w) => w.file_num,
                None => 0,
            };
            let old_size = match &self.writer {
                Some(w) => w.size,
                None => 0,
            };
            let w = append_record(dir, file_num, ve);
            self.writer = Some(ManifestWriter { file_num, size: old_size + w });
            Ok(())
        }
    }

    /// Reads back the records of the current manifest file, in order. A
    /// store without a current pointer has no versions. A missing file is
    /// an I/O failure; a malformed frame or record is corruption, never a
    /// silent stop.
    pub fn list_versions(&self, dir: &MemDir) -> (r: Result<Vec<VersionEdit>, Error>)
        requires
            dir.wf(),
        ensures
            self.spec_current() is None ==> (r matches Ok(v) && v@.len() == 0),
            self.spec_current() matches Some(n) ==> {
                &&& !dir.has_file(n) ==> r == Err::<Vec<VersionEdit>, Error>(Error::Io)
                &&& dir.has_file(n) ==> (match spec_parse_manifest(dir.file_bytes(n)) {
                    Some(es) => r matches Ok(v) && v@.map_values(|e: VersionEdit| e@) == es,
                    None => r == Err::<Vec<VersionEdit>, Error>(Error::Corrupted),
                })
            },
    {
        let n = match self.current_file_num {
            None => {
                return Ok(Vec::new());
            },
            Some(n) => n,
        };
        let i = match find_manifest(dir, n) {
            None => {
                return Err(Error::Io);
            },
            Some(i) => i,
        };
        proof {
            dir.lemma_file_bytes_at(i as int);
        }
        let bytes = &dir.manifests[i].1;
        let b = bytes.as_slice();
        let ghost full = b@;
        let len = b.len();
        let mut pos: usize = 0;
        let mut out: Vec<VersionEdit> = Vec::new();
        proof {
            lemma_auto_spec_u64_to_from_le_bytes();
            assert(full.skip(0) =~= full);
            assert(out@.map_values(|e: VersionEdit| e@) =~= Seq::<VersionEditView>::empty());
        }
        loop
            invariant
                pos <= len,
                len == full.len(),
                dir.wf(),
                self.spec_current() == Some(n),
                dir.has_file(n),
                full == dir.file_bytes(n),
                b@ == full,
                len == b@.len(),
                spec_parse_manifest(full.skip(pos as int)) matches Some(rest)
                    ==> spec_parse_manifest(full) == Some(
                    out@.map_values(|e: VersionEdit| e@) + rest,
                ),
                spec_parse_manifest(full.skip(pos as int)) is None ==> spec_parse_manifest(full)
                    is None,
            decreases len - pos,
        {
            let ghost t = full.skip(pos as int);
            if pos == len {
                proof {
                    assert(t.len() == 0);
                    assert(spec_parse_manifest(t) == Some(Seq::<VersionEditView>::empty()));
                    assert(out@.map_values(|e: VersionEdit| e@) + Seq::<
                        VersionEditView,
                    >::empty() =~= out@.map_values(|e: VersionEdit| e@));
                }
                return Ok(out);
            }
            if len - pos < 8 {
                proof {
                    assert(0 < t.len() < 8);
                    assert(spec_parse_manifest(t) is None);
                }
                return Err(Error::Corrupted);
            }
            let l64 = u64_from_le_bytes(slice_subrange(b, pos, pos + 8));
            proof {
                lemma_auto_spec_u64_to_from_le_bytes();
                assert(t.subrange(0, 8) =~= full.subrange(pos as int, pos + 8));
            }
            if l64 > (len - pos - 8) as u64 {
                proof {
                    assert(t.len() - 8 < l64);
                    assert(spec_parse_manifest(t) is None);
                }
                return Err(Error::Corrupted);
            }
            let l = l64 as usize;
            let ghost region = full.subrange(pos + 8, pos + 8 + l as int);
            proof {
                assert(t.subrange(8, 8 + l as int) =~= region);
            }
            match VersionEdit::decode(slice_subrange(b, pos + 8, pos + 8 + l)) {
                Some(v) => {
                    proof {
                        assert(region == spec_enc_edit(v@) && edit_wf(v@));
                        assert(spec_edit_of(region) == Some(v@)) by {
                            let w = choose|e: VersionEditView|
                                region == spec_enc_edit(e) && edit_wf(e);
                            lemma_enc_edit_injective(w, v@);
                        }
                        assert(t.skip(8 + l as int) =~= full.skip(pos + 8 + l as int));
                    }
                    let ghost prev_out = out@;
                    out.push(v);
                    proof {
                        assert(out@.map_values(|e: VersionEdit| e@) =~= prev_out.map_values(
                            |e: VersionEdit| e@,
                        ).push(v@));
                        match spec_parse_manifest(full.skip(pos + 8 + l as int)) {
                            Some(rest) => {
                                assert(spec_parse_manifest(t) == Some(seq![v@] + rest));
                                assert(prev_out.map_values(|e: VersionEdit| e@) + (seq![v@] + rest)
                                    =~= out@.map_values(|e: VersionEdit| e@) + rest);
                            },
                            None => {
                                assert(spec_parse_manifest(t) is None);
                            },
                        }
                    }
                    pos = pos + 8 + l;
                },
                None => {
                    proof {
                        assert(spec_edit_of(region) is None) by {
                            match spec_edit_of(region) {
                                Some(e) => {
                                    assert(region == spec_enc_edit(e) && edit_wf(e));
                                },
                                None => {},
                            }
                        }
                        assert(spec_parse_manifest(t) is None);
                    }
                    return Err(Error::Corrupted);
                },
            }
        }
    }
}

} // verus!
