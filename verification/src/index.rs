//! The primary-key index: `(row, key bytes)` pairs sorted by key, built
//! from a table's row file and saved to / loaded from its index file.

use vstd::prelude::*;
use crate::bytescoder::{spec_be32, spec_from_be32, BytesCoder};
use crate::diskinterface::{DiskError, FileBase, TableMeta, DiskInterface, spec_locate,
    spec_locate_err};
use crate::strutil::bytes_lt;
use crate::table::{Row, spec_field, lemma_bytes_lt_asym, lemma_bytes_lt_trans};
use vstd::bytes::{u32_to_le_bytes, u32_from_le_bytes, spec_u32_to_le_bytes,
    lemma_auto_spec_u32_to_from_le_bytes};

verus! {

/// One index entry: a physical row position and its key bytes.
#[derive(Debug)]
pub struct RowPair {
    pub row: u32,
    pub key_value: Vec<u8>,
}

/// A pair reduced to its values.
pub open spec fn pair_model(p: RowPair) -> (u32, Seq<u8>) {
    (p.row, p.key_value@)
}

pub open spec fn pairs_model(s: Seq<RowPair>) -> Seq<(u32, Seq<u8>)> {
    s.map(|i: int, p: RowPair| pair_model(p))
}

/// Ascending by key bytes.
pub open spec fn pairs_sorted(s: Seq<(u32, Seq<u8>)>) -> bool {
    forall|i: int, j: int| 0 <= i < j < s.len() ==> !bytes_lt((#[trigger] s[j]).1, (
    #[trigger] s[i]).1)
}

/// The bytes one pair occupies in the index file.
pub open spec fn spec_pair_bytes(p: (u32, Seq<u8>)) -> Seq<u8> {
    spec_be32(p.0) + p.1
}

/// The whole index file: each pair's bytes in order.
pub open spec fn spec_pairs_bytes(s: Seq<(u32, Seq<u8>)>) -> Seq<u8>
    decreases s.len(),
{
    if s.len() == 0 {
        Seq::empty()
    } else {
        spec_pair_bytes(s[0]) + spec_pairs_bytes(s.skip(1))
    }
}

/// Decoding an index file of fixed pair width `w` (four row bytes and
/// `w - 4` key bytes each).
pub open spec fn spec_decode_pairs(bytes: Seq<u8>, w: int) -> Seq<(u32, Seq<u8>)>
    decreases bytes.len(),
{
    if w < 4 || bytes.len() < w {
        Seq::empty()
    } else {
        seq![(spec_from_be32(bytes.subrange(0, 4)), bytes.subrange(4, w))]
            + spec_decode_pairs(bytes.skip(w), w)
    }
}

/// Decoding what was encoded gives the pairs back, provided every key
/// has the declared width.
pub proof fn lemma_pairs_round_trip(s: Seq<(u32, Seq<u8>)>, w: int)
    requires
        w >= 4,
        forall|k: int| 0 <= k < s.len() ==> (#[trigger] s[k]).1.len() == w - 4,
    ensures
        spec_decode_pairs(spec_pairs_bytes(s), w) == s,
    decreases s.len(),
{
    if s.len() == 0 {
        assert(spec_pairs_bytes(s).len() == 0);
        assert(spec_decode_pairs(Seq::empty(), w) =~= Seq::<(u32, Seq<u8>)>::empty());
        assert(spec_decode_pairs(spec_pairs_bytes(s), w) =~= s);
    } else {
        let b = spec_pairs_bytes(s);
        let head = spec_pair_bytes(s[0]);
        lemma_auto_spec_u32_to_from_le_bytes();
        assert(spec_be32(s[0].0).len() == 4) by {
            assert(spec_u32_to_le_bytes(s[0].0).len() == 4);
        }
        assert(head.len() == w);
        assert(forall|k: int|
            0 <= k < s.skip(1).len() ==> (#[trigger] s.skip(1)[k]).1.len() == w - 4);
        lemma_pairs_round_trip(s.skip(1), w);
        assert(b.len() == head.len() + spec_pairs_bytes(s.skip(1)).len());
        assert(b.subrange(0, 4) =~= spec_be32(s[0].0));
        assert(spec_be32(s[0].0).reverse() =~= spec_u32_to_le_bytes(s[0].0));
        assert(spec_from_be32(b.subrange(0, 4)) == s[0].0);
        assert(b.subrange(4, w) =~= s[0].1);
        assert(b.skip(w) =~= spec_pairs_bytes(s.skip(1)));
        assert(spec_decode_pairs(b, w) =~= s) by {
            assert(spec_decode_pairs(b, w) == seq![
                (spec_from_be32(b.subrange(0, 4)), b.subrange(4, w)),
            ] + spec_decode_pairs(b.skip(w), w));
        }
    }
}

impl RowPair {
    pub fn new(row: u32, key_value: Vec<u8>) -> (r: RowPair)
        ensures
            r.row == row,
            r.key_value == key_value,
    {
        RowPair { row, key_value }
    }

    /// The pair as index-file bytes: the row as a big-endian 32-bit
    /// integer, then the key bytes.
    pub fn to_bytes(&self) -> (r: Result<Vec<u8>, DiskError>)
        ensures
            r is Ok,
            r->Ok_0@ == spec_pair_bytes(pair_model(*self)),
    {
        let le = u32_to_le_bytes(self.row);
        let mut bs: Vec<u8> = Vec::new();
        bs.push(le[3]);
        bs.push(le[2]);
        bs.push(le[1]);
        bs.push(le[0]);
        proof {
            assert(bs@ =~= spec_u32_to_le_bytes(self.row).reverse());
        }
        let ghost before = bs@;
        let n = self.key_value.len();
        let mut i: usize = 0;
        while i < n
            invariant
                i <= n,
                n == self.key_value@.len(),
                bs@ =~= before + self.key_value@.take(i as int),
            decreases n - i,
        {
            bs.push(self.key_value[i]);
            proof {
                assert(bs@ =~= before + self.key_value@.take(i + 1));
            }
            i += 1;
        }
        proof {
            assert(self.key_value@.take(n as int) =~= self.key_value@);
        }
        Ok(bs)
    }

    /// A value-equal copy.
    pub fn duplicate(&self) -> (r: RowPair)
        ensures
            r.row == self.row,
            r.key_value@ == self.key_value@,
            pair_model(r) == pair_model(*self),
    {
        let mut kv: Vec<u8> = Vec::new();
        let n = self.key_value.len();
        let mut i: usize = 0;
        while i < n
            invariant
                i <= n,
                n == self.key_value@.len(),
                kv@ =~= self.key_value@.take(i as int),
            decreases n - i,
        {
            kv.push(self.key_value[i]);
            proof {
                assert(kv@ =~= self.key_value@.take(i + 1));
            }
            i += 1;
        }
        proof {
            assert(kv@ =~= self.key_value@);
        }
        RowPair { row: self.row, key_value: kv }
    }
}

/// The per-table primary-key index.
pub struct Index {
    pub table_meta: TableMeta,
    pub index_data: Vec<RowPair>,
    pub num_rows: u32,
}

impl Index {
    pub fn new(table_meta: TableMeta) -> (r: Result<Index, DiskError>)
        ensures
            r is Ok,
            r->Ok_0.table_meta == table_meta,
            r->Ok_0.index_data@.len() == 0,
            r->Ok_0.num_rows == 0,
    {
        Ok(Index { table_meta, index_data: Vec::new(), num_rows: 0 })
    }

    /// Writes the sorted pairs into the table's index file.
    #[verifier::loop_isolation(false)]
    pub fn save(&self, base: &mut FileBase) -> (r: Result<(), DiskError>)
        ensures
            (match spec_locate(
                *old(base),
                self.table_meta.username@,
                self.table_meta.db_name@,
                self.table_meta.name@,
            ) {
                None => {
                    &&& r == Err::<(), DiskError>(spec_locate_err(
                        *old(base),
                        self.table_meta.username@,
                        self.table_meta.db_name@,
                        self.table_meta.name@,
                    ))
                    &&& *final(base) == *old(base)
                },
                Some((ui, di, ti)) => {
                    let tf = old(base).users@[ui].dbs@[di].tables@[ti];
                    let tf2 = final(base).users@[ui].dbs@[di].tables@[ti];
                    &&& r is Ok
                    &&& tf2.idx@ == spec_pairs_bytes(pairs_model(self.index_data@))
                    &&& tf2.meta == tf.meta
                    &&& tf2.bin == tf.bin
                    &&& final(base).users@ == old(base).users@.update(
                        ui,
                        final(base).users@[ui],
                    )
                    &&& final(base).users@[ui].name == old(base).users@[ui].name
                    &&& final(base).users@[ui].dbs@ == old(base).users@[ui].dbs@.update(
                        di,
                        final(base).users@[ui].dbs@[di],
                    )
                    &&& final(base).users@[ui].dbs@[di].name == old(
                        base,
                    ).users@[ui].dbs@[di].name
                    &&& final(base).users@[ui].dbs@[di].tables@ == old(
                        base,
                    ).users@[ui].dbs@[di].tables@.update(ti, tf2)
                },
            }),
    {
        let (ui, di, ti) = match DiskInterface::locate_for(
            base,
            self.table_meta.username.as_str(),
            self.table_meta.db_name.as_str(),
            self.table_meta.name.as_str(),
        ) {
            Ok(t) => t,
            Err(e) => {
                return Err(e);
            },
        };
        let mut chunk: Vec<u8> = Vec::new();
        let n = self.index_data.len();
        let mut i: usize = 0;
        proof {
            assert(pairs_model(self.index_data@).skip(0) =~= pairs_model(self.index_data@));
            assert(chunk@ + spec_pairs_bytes(pairs_model(self.index_data@)) =~= spec_pairs_bytes(
                pairs_model(self.index_data@),
            ));
        }
        while i < n
            invariant
                i <= n,
                n == self.index_data@.len(),
                spec_pairs_bytes(pairs_model(self.index_data@)) == chunk@ + spec_pairs_bytes(
                    pairs_model(self.index_data@).skip(i as int),
                ),
            decreases n - i,
        {
            proof {
                assert(pairs_model(self.index_data@).skip(i as int)[0] == pair_model(
                    self.index_data@[i as int],
                ));
                assert(pairs_model(self.index_data@).skip(i as int).skip(1) =~= pairs_model(
                    self.index_data@,
                ).skip(i + 1));
            }
            let pb = match self.index_data[i].to_bytes() {
                Ok(b) => b,
                Err(e) => {
                    proof {
                        assert(false);
                    }
                    return Err(e);
                },
            };
            let ghost before = chunk@;
            let nb = pb.len();
            let mut j: usize = 0;
            while j < nb
                invariant
                    j <= nb,
                    nb == pb@.len(),
                    chunk@ =~= before + pb@.take(j as int),
                decreases nb - j,
            {
                chunk.push(pb[j]);
                proof {
                    assert(chunk@ =~= before + pb@.take(j + 1));
                }
                j += 1;
            }
            proof {
                assert(pb@.take(nb as int) =~= pb@);
                match spec_pairs_bytes(pairs_model(self.index_data@).skip(i + 1)) {
                    rest => {
                        assert(before + (pb@ + rest) =~= chunk@ + rest);
                    },
                }
            }
            i += 1;
        }
        proof {
            assert(spec_pairs_bytes(pairs_model(self.index_data@).skip(n as int))
                =~= Seq::<u8>::empty());
            assert(chunk@ + Seq::<u8>::empty() =~= chunk@);
        }
        let mut u = base.users.remove(ui);
        let mut d = u.dbs.remove(di);
        let mut tf = d.tables.remove(ti);
        tf.idx = chunk;
        d.tables.insert(ti, tf);
        u.dbs.insert(di, d);
        base.users.insert(ui, u);
        proof {
            assert(base.users@ =~= old(base).users@.update(ui as int, base.users@[ui as int]));
            assert(base.users@[ui as int].dbs@ =~= old(base).users@[ui as int].dbs@.update(
                di as int,
                base.users@[ui as int].dbs@[di as int],
            ));
            assert(base.users@[ui as int].dbs@[di as int].tables@ =~= old(
                base,
            ).users@[ui as int].dbs@[di as int].tables@.update(
                ti as int,
                base.users@[ui as int].dbs@[di as int].tables@[ti as int],
            ));
        }
        Ok(())
    }
}

/// Three-way comparison of two byte keys.
fn cmp_bytes(a: &Vec<u8>, b: &Vec<u8>) -> (r: crate::decimal::CmpResult)
    ensures
        (r == crate::decimal::CmpResult::Less) == bytes_lt(a@, b@),
        (r == crate::decimal::CmpResult::Equal) == (a@ == b@),
        (r == crate::decimal::CmpResult::Greater) == bytes_lt(b@, a@),
{
    let na = a.len();
    let nb = b.len();
    let n = if na < nb { na } else { nb };
    let mut i: usize = 0;
    proof {
        assert(a@.skip(0) =~= a@);
        assert(b@.skip(0) =~= b@);
    }
    while i < n
        invariant
            n == if na < nb { na as int } else { nb as int },
            na == a@.len(),
            nb == b@.len(),
            i <= n,
            forall|j: int| 0 <= j < i ==> a@[j] == b@[j],
            bytes_lt(a@, b@) == bytes_lt(a@.skip(i as int), b@.skip(i as int)),
            bytes_lt(b@, a@) == bytes_lt(b@.skip(i as int), a@.skip(i as int)),
        decreases n - i,
    {
        let ca = a[i];
        let cb = b[i];
        if ca < cb {
            proof {
                assert(bytes_lt(a@.skip(i as int), b@.skip(i as int)));
                assert(!bytes_lt(b@.skip(i as int), a@.skip(i as int)));
                assert(a@[i as int] != b@[i as int]);
                assert(a@ != b@);
            }
            return crate::decimal::CmpResult::Less;
        }
        if ca > cb {
            proof {
                assert(bytes_lt(b@.skip(i as int), a@.skip(i as int)));
                assert(!bytes_lt(a@.skip(i as int), b@.skip(i as int)));
                assert(a@[i as int] != b@[i as int]);
                assert(a@ != b@);
            }
            return crate::decimal::CmpResult::Greater;
        }
        proof {
            assert(a@.skip(i as int).skip(1) =~= a@.skip(i + 1));
            assert(b@.skip(i as int).skip(1) =~= b@.skip(i + 1));
        }
        i += 1;
    }
    proof {
        assert(a@.skip(i as int).len() == na - i);
        assert(b@.skip(i as int).len() == nb - i);
    }
    if na < nb {
        proof {
            assert(bytes_lt(a@.skip(i as int), b@.skip(i as int)));
            assert(!bytes_lt(b@.skip(i as int), a@.skip(i as int)));
            assert(a@.len() != b@.len());
        }
        crate::decimal::CmpResult::Less
    } else if nb < na {
        proof {
            assert(bytes_lt(b@.skip(i as int), a@.skip(i as int)));
            assert(!bytes_lt(a@.skip(i as int), b@.skip(i as int)));
            assert(a@.len() != b@.len());
        }
        crate::decimal::CmpResult::Greater
    } else {
        proof {
            assert(a@ =~= b@);
            assert(!bytes_lt(a@.skip(i as int), b@.skip(i as int)));
            assert(!bytes_lt(b@.skip(i as int), a@.skip(i as int)));
        }
        crate::decimal::CmpResult::Equal
    }
}

proof fn lemma_bytes_lt_chain(q: Seq<u8>, m_old: Seq<u8>, m_new: Seq<u8>)
    requires
        !bytes_lt(q, m_old),
        bytes_lt(m_new, m_old),
    ensures
        !bytes_lt(q, m_new),
{
    if bytes_lt(q, m_new) {
        lemma_bytes_lt_trans(q, m_new, m_old);
    }
}

/// The `(row, key)` pairs of the live records among the first `n`.
pub open spec fn live_pairs(bin: Seq<u8>, rl: int, klo: int, khi: int, i: int, n: int) -> Seq<
    (u32, Seq<u8>),
>
    decreases n - i,
{
    if i >= n {
        Seq::empty()
    } else {
        let rest = live_pairs(bin, rl, klo, khi, i + 1, n);
        if bin[i * rl] == 1 {
            seq![(i as u32, bin.subrange(i * rl + klo, i * rl + khi))] + rest
        } else {
            rest
        }
    }
}

impl Index {
    /// Builds the index from the table's row file: one pair per live
    /// record, sorted by key bytes; `num_rows` counts every physical
    /// record, tombstones included.
    #[verifier::loop_isolation(false)]
    #[verifier::rlimit(100)]
    pub fn build_from_bin(&mut self, base: &FileBase) -> (r: Result<(), DiskError>)
        requires
            old(self).table_meta.attr_offset_ranges@.len() >= 2,
            old(self).table_meta.attr_offset_ranges@[1]@.len() == 2,
            old(self).table_meta.row_length >= 1,
            old(self).table_meta.attr_offset_ranges@[1]@[0]
                <= old(self).table_meta.attr_offset_ranges@[1]@[1],
            old(self).table_meta.attr_offset_ranges@[1]@[1] <= old(self).table_meta.row_length,
            (match spec_locate(
                *base,
                old(self).table_meta.username@,
                old(self).table_meta.db_name@,
                old(self).table_meta.name@,
            ) {
                Some((ui, di, ti)) => {
                    let tf = base.users@[ui].dbs@[di].tables@[ti];
                    &&& (tf.bin@.len() as int) % (old(self).table_meta.row_length as int) == 0
                    &&& (tf.bin@.len() as int) / (old(self).table_meta.row_length as int) <= u32::MAX
                },
                None => true,
            }),
        ensures
            (match spec_locate(
                *base,
                old(self).table_meta.username@,
                old(self).table_meta.db_name@,
                old(self).table_meta.name@,
            ) {
                None => {
                    &&& r == Err::<(), DiskError>(spec_locate_err(
                        *base,
                        old(self).table_meta.username@,
                        old(self).table_meta.db_name@,
                        old(self).table_meta.name@,
                    ))
                    &&& *final(self) == *old(self)
                },
                Some((ui, di, ti)) => {
                    let tf = base.users@[ui].dbs@[di].tables@[ti];
                    let rl = old(self).table_meta.row_length as int;
                    let klo = old(self).table_meta.attr_offset_ranges@[1]@[0] as int;
                    let khi = old(self).table_meta.attr_offset_ranges@[1]@[1] as int;
                    let live = live_pairs(tf.bin@, rl, klo, khi, 0, (tf.bin@.len() as int) / rl);
                    &&& r is Ok
                    &&& final(self).table_meta == old(self).table_meta
                    &&& final(self).num_rows == (tf.bin@.len() as int) / rl
                    &&& pairs_sorted(pairs_model(final(self).index_data@))
                    &&& pairs_model(final(self).index_data@).to_multiset() == live.to_multiset()
                },
            }),
    {
        broadcast use vstd::seq_lib::group_to_multiset_ensures;

        let (ui, di, ti) = match DiskInterface::locate_for(
            base,
            self.table_meta.username.as_str(),
            self.table_meta.db_name.as_str(),
            self.table_meta.name.as_str(),
        ) {
            Ok(t) => t,
            Err(e) => {
                return Err(e);
            },
        };
        let tf = &base.users[ui].dbs[di].tables[ti];
        let rl = self.table_meta.row_length as usize;
        let klo = self.table_meta.attr_offset_ranges[1][0] as usize;
        let khi = self.table_meta.attr_offset_ranges[1][1] as usize;
        let nrec = tf.bin.len() / rl;
        let ghost rls = rl as int;
        // collect one pair per live record
        let mut pairs: Vec<RowPair> = Vec::new();
        let mut i: usize = 0;
        proof {
            assert(live_pairs(tf.bin@, rls, klo as int, khi as int, 0, nrec as int)
                == Seq::<(u32, Seq<u8>)>::empty() + live_pairs(
                tf.bin@,
                rls,
                klo as int,
                khi as int,
                0,
                nrec as int,
            )) by {
                assert(Seq::<(u32, Seq<u8>)>::empty() + live_pairs(
                    tf.bin@,
                    rls,
                    klo as int,
                    khi as int,
                    0,
                    nrec as int,
                ) =~= live_pairs(tf.bin@, rls, klo as int, khi as int, 0, nrec as int));
            }
        }
        while i < nrec
            invariant
                i <= nrec,
                nrec == (tf.bin@.len() as int) / rls,
                (tf.bin@.len() as int) % rls == 0,
                rl >= 1,
                klo <= khi <= rl,
                live_pairs(tf.bin@, rls, klo as int, khi as int, 0, nrec as int) == pairs_model(
                    pairs@,
                ) + live_pairs(tf.bin@, rls, klo as int, khi as int, i as int, nrec as int),
            decreases nrec - i,
        {
            proof {
                assert((i as int) * rls >= 0) by (nonlinear_arith)
                    requires i >= 0, rls >= 0,
                ;
                assert((i as int + 1) * rls <= (nrec as int) * rls) by (nonlinear_arith)
                    requires i + 1 <= nrec, rls >= 0,
                ;
                assert((nrec as int) * rls == tf.bin@.len()) by (nonlinear_arith)
                    requires
                        nrec == (tf.bin@.len() as int) / rls,
                        (tf.bin@.len() as int) % rls == 0,
                        rls >= 1,
                ;
                assert((i as int + 1) * rls == (i as int) * rls + rls) by (nonlinear_arith);
            }
            let start = i * rl;
            if tf.bin[start] == 1 {
                let mut key: Vec<u8> = Vec::new();
                let mut j: usize = start + klo;
                let kend = start + khi;
                while j < kend
                    invariant
                        start + klo <= j <= kend <= tf.bin@.len(),
                        key@ =~= tf.bin@.subrange(start + klo, j as int),
                    decreases kend - j,
                {
                    key.push(tf.bin[j]);
                    proof {
                        assert(key@ =~= tf.bin@.subrange(start + klo, j + 1));
                    }
                    j += 1;
                }
                let ghost before = pairs@;
                pairs.push(RowPair { row: i as u32, key_value: key });
                proof {
                    assert(pairs_model(pairs@) =~= pairs_model(before).push(
                        (i as u32, tf.bin@.subrange(start + klo, start + khi)),
                    ));
                    assert(live_pairs(tf.bin@, rls, klo as int, khi as int, i as int,
                        nrec as int) == seq![
                        (i as u32, tf.bin@.subrange(start + klo, start + khi)),
                    ] + live_pairs(tf.bin@, rls, klo as int, khi as int, i + 1, nrec as int));
                    assert(pairs_model(before) + (seq![
                        (i as u32, tf.bin@.subrange(start + klo, start + khi)),
                    ] + live_pairs(tf.bin@, rls, klo as int, khi as int, i + 1, nrec as int))
                        =~= pairs_model(pairs@) + live_pairs(tf.bin@, rls, klo as int,
                        khi as int, i + 1, nrec as int));
                }
            } else {
                proof {
                    assert(live_pairs(tf.bin@, rls, klo as int, khi as int, i as int,
                        nrec as int) == live_pairs(tf.bin@, rls, klo as int, khi as int, i + 1,
                        nrec as int));
                }
            }
            i += 1;
        }
        proof {
            assert(live_pairs(tf.bin@, rls, klo as int, khi as int, nrec as int, nrec as int)
                =~= Seq::<(u32, Seq<u8>)>::empty());
            assert(pairs_model(pairs@) + Seq::<(u32, Seq<u8>)>::empty() =~= pairs_model(pairs@));
        }
        // sort ascending by key bytes
        let ghost total = pairs_model(pairs@).to_multiset();
        let mut src = pairs;
        let mut out: Vec<RowPair> = Vec::new();
        proof {
            assert(pairs_model(out@) =~= Seq::<(u32, Seq<u8>)>::empty());
            assert(pairs_model(out@).to_multiset().add(pairs_model(src@).to_multiset())
                =~= total);
        }
        while src.len() > 0
            invariant
                pairs_model(out@).to_multiset().add(pairs_model(src@).to_multiset()) == total,
                pairs_sorted(pairs_model(out@)),
                forall|oi: int, sj: int|
                    0 <= oi < out@.len() && 0 <= sj < src@.len() ==> !bytes_lt(
                        (#[trigger] pairs_model(src@)[sj]).1,
                        (#[trigger] pairs_model(out@)[oi]).1,
                    ),
            decreases src.len(),
        {
            let ns = src.len();
            let mut m: usize = 0;
            let mut k: usize = 1;
            proof {
                lemma_bytes_lt_asym(pairs_model(src@)[0].1, pairs_model(src@)[0].1);
            }
            while k < ns
                invariant
                    m < k <= ns,
                    ns == src@.len(),
                    forall|q: int| 0 <= q < k ==> !bytes_lt(
                        (#[trigger] pairs_model(src@)[q]).1,
                        pairs_model(src@)[m as int].1,
                    ),
                decreases ns - k,
            {
                let ghost mprev = m as int;
                if matches!(
                    cmp_bytes(&src[k].key_value, &src[m].key_value),
                    crate::decimal::CmpResult::Less
                ) {
                    m = k;
                    proof {
                        lemma_bytes_lt_asym(pairs_model(src@)[k as int].1, pairs_model(
                            src@,
                        )[k as int].1);
                        assert forall|q: int| 0 <= q < k + 1 implies !bytes_lt(
                            (#[trigger] pairs_model(src@)[q]).1,
                            pairs_model(src@)[m as int].1,
                        ) by {
                            if q < k {
                                lemma_bytes_lt_chain(pairs_model(src@)[q].1, pairs_model(
                                    src@,
                                )[mprev].1, pairs_model(src@)[k as int].1);
                            }
                        }
                    }
                } else {
                    proof {
                        assert forall|q: int| 0 <= q < k + 1 implies !bytes_lt(
                            (#[trigger] pairs_model(src@)[q]).1,
                            pairs_model(src@)[m as int].1,
                        ) by {}
                    }
                }
                k += 1;
            }
            let ghost old_src = src@;
            let ghost old_out = out@;
            let x = src.remove(m);
            out.push(x);
            proof {
                let xd = pair_model(x);
                let osd = pairs_model(old_src);
                let ood = pairs_model(old_out);
                assert(osd[m as int] == xd);
                assert(pairs_model(out@) =~= ood.push(xd));
                assert(pairs_model(src@) =~= osd.remove(m as int));
                assert(pairs_model(out@).to_multiset() =~= ood.to_multiset().insert(xd));
                assert(pairs_model(src@).to_multiset() =~= osd.to_multiset().remove(xd));
                assert(osd.contains(xd));
                assert(osd.to_multiset().contains(xd));
                assert(pairs_model(out@).to_multiset().add(pairs_model(src@).to_multiset())
                    =~= ood.to_multiset().add(osd.to_multiset()));
                assert forall|a: int, b: int|
                    0 <= a < b < pairs_model(out@).len() implies !bytes_lt(
                    pairs_model(out@)[b].1,
                    pairs_model(out@)[a].1,
                ) by {
                    if b == pairs_model(out@).len() - 1 {
                        assert(pairs_model(out@)[b] == xd);
                        assert(pairs_model(out@)[a] == ood[a]);
                        assert(!bytes_lt(osd[m as int].1, ood[a].1));
                    } else {
                        assert(pairs_model(out@)[a] == ood[a]);
                        assert(pairs_model(out@)[b] == ood[b]);
                    }
                }
                assert forall|oi: int, sj: int|
                    0 <= oi < out@.len() && 0 <= sj < src@.len() implies !bytes_lt(
                    (#[trigger] pairs_model(src@)[sj]).1,
                    (#[trigger] pairs_model(out@)[oi]).1,
                ) by {
                    let orig = if sj < m { sj } else { sj + 1 };
                    assert(pairs_model(src@)[sj] == osd[orig]);
                    if oi == out@.len() - 1 {
                        assert(pairs_model(out@)[oi] == xd);
                        assert(!bytes_lt(osd[orig].1, osd[m as int].1));
                    } else {
                        assert(pairs_model(out@)[oi] == ood[oi]);
                        assert(!bytes_lt(osd[orig].1, ood[oi].1));
                    }
                }
            }
        }
        proof {
            assert(pairs_model(src@) =~= Seq::<(u32, Seq<u8>)>::empty());
            assert(pairs_model(out@).to_multiset().add(pairs_model(src@).to_multiset())
                =~= pairs_model(out@).to_multiset());
        }
        self.index_data = out;
        self.num_rows = nrec as u32;
        Ok(())
    }

    /// Reads the pairs back from the table's index file; the physical
    /// row count comes from the row file's length.
    #[verifier::loop_isolation(false)]
    pub fn load(&mut self, base: &FileBase) -> (r: Result<(), DiskError>)
        requires
            old(self).table_meta.attr_offset_ranges@.len() >= 2,
            old(self).table_meta.attr_offset_ranges@[1]@.len() == 2,
            old(self).table_meta.row_length >= 1,
            old(self).table_meta.attr_offset_ranges@[1]@[0]
                <= old(self).table_meta.attr_offset_ranges@[1]@[1],
            old(self).table_meta.attr_offset_ranges@[1]@[1] <= 0x7fff_ffff,
            (match spec_locate(
                *base,
                old(self).table_meta.username@,
                old(self).table_meta.db_name@,
                old(self).table_meta.name@,
            ) {
                Some((ui, di, ti)) => {
                    let tf = base.users@[ui].dbs@[di].tables@[ti];
                    (tf.bin@.len() as int) / (old(self).table_meta.row_length as int) <= u32::MAX
                },
                None => true,
            }),
        ensures
            (match spec_locate(
                *base,
                old(self).table_meta.username@,
                old(self).table_meta.db_name@,
                old(self).table_meta.name@,
            ) {
                None => {
                    &&& r == Err::<(), DiskError>(spec_locate_err(
                        *base,
                        old(self).table_meta.username@,
                        old(self).table_meta.db_name@,
                        old(self).table_meta.name@,
                    ))
                    &&& *final(self) == *old(self)
                },
                Some((ui, di, ti)) => {
                    let tf = base.users@[ui].dbs@[di].tables@[ti];
                    let w = old(self).table_meta.attr_offset_ranges@[1]@[1]
                        - old(self).table_meta.attr_offset_ranges@[1]@[0] + 4;
                    &&& r is Ok
                    &&& final(self).table_meta == old(self).table_meta
                    &&& pairs_model(final(self).index_data@) == spec_decode_pairs(
                        tf.idx@,
                        w as int,
                    )
                    &&& final(self).num_rows == (tf.bin@.len() as int) / (
                    old(self).table_meta.row_length as int)
                },
            }),
    {
        let (ui, di, ti) = match DiskInterface::locate_for(
            base,
            self.table_meta.username.as_str(),
            self.table_meta.db_name.as_str(),
            self.table_meta.name.as_str(),
        ) {
            Ok(t) => t,
            Err(e) => {
                return Err(e);
            },
        };
        let tf = &base.users[ui].dbs[di].tables[ti];
        let w = (self.table_meta.attr_offset_ranges[1][1]
            - self.table_meta.attr_offset_ranges[1][0]) as usize + 4;
        let mut out: Vec<RowPair> = Vec::new();
        let n = tf.idx.len();
        let mut off: usize = 0;
        proof {
            assert(tf.idx@.skip(0) =~= tf.idx@);
            assert(pairs_model(out@) =~= Seq::<(u32, Seq<u8>)>::empty());
            assert(pairs_model(out@) + spec_decode_pairs(tf.idx@, w as int) =~= spec_decode_pairs(
                tf.idx@,
                w as int,
            ));
        }
        while off <= n && n - off >= w
            invariant
                w >= 4,
                off <= n,
                n == tf.idx@.len(),
                spec_decode_pairs(tf.idx@, w as int) == pairs_model(out@) + spec_decode_pairs(
                    tf.idx@.skip(off as int),
                    w as int,
                ),
            decreases n - off,
        {
            let ghost rest = tf.idx@.skip(off as int);
            let row = {
                let mut le: Vec<u8> = Vec::new();
                le.push(tf.idx[off + 3]);
                le.push(tf.idx[off + 2]);
                le.push(tf.idx[off + 1]);
                le.push(tf.idx[off]);
                proof {
                    assert(le@ =~= rest.subrange(0, 4).reverse());
                }
                u32_from_le_bytes(le.as_slice())
            };
            let mut key: Vec<u8> = Vec::new();
            let mut j: usize = off + 4;
            let kend = off + w;
            while j < kend
                invariant
                    off + 4 <= j <= kend <= n,
                    n == tf.idx@.len(),
                    rest == tf.idx@.skip(off as int),
                    key@ =~= tf.idx@.subrange(off + 4, j as int),
                decreases kend - j,
            {
                key.push(tf.idx[j]);
                proof {
                    assert(key@ =~= tf.idx@.subrange(off + 4, j + 1));
                }
                j += 1;
            }
            let ghost before = out@;
            out.push(RowPair { row, key_value: key });
            proof {
                assert(key@ =~= rest.subrange(4, w as int));
                assert(pairs_model(out@) =~= pairs_model(before).push(
                    (spec_from_be32(rest.subrange(0, 4)), rest.subrange(4, w as int)),
                ));
                assert(spec_decode_pairs(rest, w as int) == seq![
                    (spec_from_be32(rest.subrange(0, 4)), rest.subrange(4, w as int)),
                ] + spec_decode_pairs(rest.skip(w as int), w as int));
                assert(rest.skip(w as int) =~= tf.idx@.skip(off + w));
                assert(pairs_model(before) + (seq![
                    (spec_from_be32(rest.subrange(0, 4)), rest.subrange(4, w as int)),
                ] + spec_decode_pairs(tf.idx@.skip(off + w), w as int)) =~= pairs_model(out@)
                    + spec_decode_pairs(tf.idx@.skip(off + w), w as int));
            }
            off = off + w;
        }
        proof {
            assert(tf.idx@.skip(off as int).len() < w);
            assert(spec_decode_pairs(tf.idx@.skip(off as int), w as int) =~= Seq::<(
                u32,
                Seq<u8>,
            )>::empty());
            assert(pairs_model(out@) + Seq::<(u32, Seq<u8>)>::empty() =~= pairs_model(out@));
        }
        self.index_data = out;
        let rl = self.table_meta.row_length as usize;
        self.num_rows = (tf.bin.len() / rl) as u32;
        Ok(())
    }

    /// Inserts a new row's key at its sorted position; an equal key is
    /// rejected.
    #[verifier::loop_isolation(false)]
    pub fn insert(&mut self, row: &Row) -> (r: Result<(), DiskError>)
        requires
            row.keys_unique(),
            old(self).table_meta.primary_key@.len() >= 1,
            old(self).num_rows < u32::MAX,
            pairs_sorted(pairs_model(old(self).index_data@)),
        ensures
            (match (
                spec_field(
                    old(self).table_meta.attrs@,
                    old(self).table_meta.primary_key@[0]@,
                ),
                row@.contains_key(old(self).table_meta.primary_key@[0]@),
            ) {
                (Some(f), true) => {
                    match crate::bytescoder::spec_attr_to_bytes(
                        f.datatype,
                        row@[old(self).table_meta.primary_key@[0]@],
                    ) {
                        Err(_) => {
                            &&& r == Err::<(), DiskError>(DiskError::BytesError)
                            &&& *final(self) == *old(self)
                        },
                        Ok(k) => {
                            if exists|q: int|
                                0 <= q < old(self).index_data@.len() && (#[trigger] pairs_model(
                                    old(self).index_data@,
                                )[q]).1 == k {
                                &&& r == Err::<(), DiskError>(DiskError::DuplicatedKey)
                                &&& *final(self) == *old(self)
                            } else {
                                &&& r is Ok
                                &&& final(self).num_rows == old(self).num_rows + 1
                                &&& pairs_sorted(pairs_model(final(self).index_data@))
                                &&& pairs_model(final(self).index_data@).to_multiset()
                                    == pairs_model(old(self).index_data@).to_multiset().insert(
                                    (old(self).num_rows, k),
                                )
                            }
                        },
                    }
                },
                (_, false) => {
                    &&& r == Err::<(), DiskError>(DiskError::AttrNotExists)
                    &&& *final(self) == *old(self)
                },
                (None, _) => {
                    &&& r == Err::<(), DiskError>(DiskError::AttrNotExists)
                    &&& *final(self) == *old(self)
                },
            }),
    {
        broadcast use vstd::seq_lib::group_to_multiset_ensures;

        let pk = &self.table_meta.primary_key[0];
        let value = match row.get(pk.as_str()) {
            Some(v) => v,
            None => {
                return Err(DiskError::AttrNotExists);
            },
        };
        // find the key field's type
        let na = self.table_meta.attrs.len();
        let mut found: Option<&crate::field::Field> = None;
        let mut q: usize = 0;
        proof {
            assert(self.table_meta.attrs@.skip(0) =~= self.table_meta.attrs@);
        }
        while q < na
            invariant
                q <= na,
                na == self.table_meta.attrs@.len(),
                found is None,
                spec_field(self.table_meta.attrs@, pk@) == spec_field(
                    self.table_meta.attrs@.skip(q as int),
                    pk@,
                ),
            decreases na - q,
        {
            proof {
                assert(self.table_meta.attrs@.skip(q as int)[0] == self.table_meta.attrs@[
                    q as int]);
                assert(self.table_meta.attrs@.skip(q as int).skip(1)
                    =~= self.table_meta.attrs@.skip(q + 1));
            }
            if crate::strutil::str_eq(self.table_meta.attrs[q].name.as_str(), pk.as_str()) {
                found = Some(&self.table_meta.attrs[q]);
                break;
            }
            q += 1;
        }
        let f = match found {
            Some(f) => f,
            None => {
                proof {
                    assert(self.table_meta.attrs@.skip(na as int).len() == 0);
                }
                return Err(DiskError::AttrNotExists);
            },
        };
        let key = match BytesCoder::attr_to_bytes(&f.datatype, value.as_str()) {
            Ok(k) => k,
            Err(_) => {
                return Err(DiskError::BytesError);
            },
        };
        // find the insertion point; an equal key is a duplicate
        let n = self.index_data.len();
        let mut pos: usize = 0;
        while pos < n
            invariant
                pos <= n,
                n == self.index_data@.len(),
                self == old(self),
                forall|j: int| 0 <= j < pos ==> bytes_lt(
                    (#[trigger] pairs_model(self.index_data@)[j]).1,
                    key@,
                ),
            decreases n - pos,
        {
            match cmp_bytes(&self.index_data[pos].key_value, &key) {
                crate::decimal::CmpResult::Less => {
                    pos += 1;
                },
                crate::decimal::CmpResult::Equal => {
                    proof {
                        assert(pairs_model(self.index_data@)[pos as int].1 == key@);
                    }
                    return Err(DiskError::DuplicatedKey);
                },
                crate::decimal::CmpResult::Greater => {
                    break;
                },
            }
        }
        proof {
            assert forall|j: int|
                0 <= j < self.index_data@.len() implies (#[trigger] pairs_model(
                self.index_data@,
            )[j]).1 != key@ by {
                if j < pos {
                    lemma_bytes_lt_asym(pairs_model(self.index_data@)[j].1, key@);
                } else if j == pos {
                } else {
                    lemma_bytes_lt_asym(key@, pairs_model(self.index_data@)[pos as int].1);
                    if pairs_model(self.index_data@)[j].1 == key@ {
                        assert(!bytes_lt(pairs_model(self.index_data@)[j].1, pairs_model(
                            self.index_data@,
                        )[pos as int].1));
                        assert(bytes_lt(key@, pairs_model(self.index_data@)[pos as int].1));
                    }
                }
            }
        }
        let ghost before = self.index_data@;
        let rownum = self.num_rows;
        self.index_data.insert(pos, RowPair { row: rownum, key_value: key });
        self.num_rows = rownum + 1;
        proof {
            let nv = pairs_model(self.index_data@);
            let ov = pairs_model(before);
            assert forall|a: int, b: int|
                0 <= a < b < nv.len() implies !bytes_lt(nv[b].1, nv[a].1) by {
                if a == pos {
                    // everything after the insertion point is at or above the key
                    assert(nv[a].1 == key@);
                    assert(b > pos);
                    assert(nv[b] == ov[b - 1]);
                    if pos as int >= ov.len() {
                        assert(false);
                    } else {
                        assert(bytes_lt(key@, ov[pos as int].1));
                        if b - 1 == pos as int {
                            if bytes_lt(nv[b].1, nv[a].1) {
                                lemma_bytes_lt_asym(key@, ov[pos as int].1);
                            }
                        } else {
                            assert(!bytes_lt(ov[b - 1].1, ov[pos as int].1));
                            if bytes_lt(nv[b].1, nv[a].1) {
                                lemma_bytes_lt_trans(ov[b - 1].1, key@, ov[pos as int].1);
                            }
                        }
                    }
                } else if b == pos {
                    // everything before the insertion point is below the key
                    assert(nv[a] == ov[a]);
                    assert(bytes_lt(ov[a].1, key@));
                    lemma_bytes_lt_asym(ov[a].1, key@);
                } else {
                    let oa = if a < pos { a } else { a - 1 };
                    let ob = if b < pos { b } else { b - 1 };
                    assert(nv[a] == ov[oa]);
                    assert(nv[b] == ov[ob]);
                    assert(oa < ob);
                    assert(!bytes_lt(ov[ob].1, ov[oa].1));
                }
            }
            assert(pairs_model(self.index_data@) =~= pairs_model(before).insert(
                pos as int,
                (rownum, key@),
            ));
            lemma_insert_multiset(pairs_model(before), pos as int, (rownum, key@));
        }
        Ok(())
    }
}

/// Inserting an element adds exactly it to the multiset.
proof fn lemma_insert_multiset(s: Seq<(u32, Seq<u8>)>, i: int, x: (u32, Seq<u8>))
    requires
        0 <= i <= s.len(),
    ensures
        s.insert(i, x).to_multiset() == s.to_multiset().insert(x),
    decreases s.len() - i,
{
    broadcast use vstd::seq_lib::group_to_multiset_ensures;

    if i == s.len() {
        assert(s.insert(i, x) =~= s.push(x));
    } else {
        assert(s.insert(i, x) =~= s.insert(i, x));
        let t = s.insert(i, x);
        assert(t.remove(i) =~= s);
        assert(t[i] == x);
        assert(t.remove(i).to_multiset() =~= t.to_multiset().remove(x));
        assert(t.to_multiset().remove(x).insert(x) =~= s.to_multiset().insert(x));
        assert(t.to_multiset().contains(x)) by {
            assert(t.contains(x));
        }
        assert(t.to_multiset() =~= t.to_multiset().remove(x).insert(x));
    }
}

} // verus!
