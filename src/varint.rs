use vstd::prelude::*;

verus! {

/// Unsigned LEB128: seven bits per byte, least significant group first, the high bit set on
/// every byte but the last.
pub open spec fn leb128(v: nat) -> Seq<u8>
    decreases v,
{
    if v < 0x80 {
        seq![v as u8]
    } else {
        seq![((v % 0x80) + 0x80) as u8] + leb128(v / 0x80)
    }
}

/// A byte buffer that varint-encoded integers and raw bytes are appended to.
pub struct VarintWriter {
    pub buf: Vec<u8>,
}

impl VarintWriter {
    pub fn new() -> (r: VarintWriter)
        ensures
            r.buf@ == Seq::<u8>::empty(),
    {
        VarintWriter { buf: Vec::with_capacity(2048) }
    }

    pub fn with_capacity(capacity: usize) -> (r: VarintWriter)
        ensures
            r.buf@ == Seq::<u8>::empty(),
    {
        VarintWriter { buf: Vec::with_capacity(capacity) }
    }

    /// Appends `value` in LEB128.
    pub fn write_u128(&mut self, value: u128)
        ensures
            final(self).buf@ == old(self).buf@ + leb128(value as nat),
    {
        let mut v = value;
        loop
            invariant_except_break
                old(self).buf@ + leb128(value as nat) == self.buf@ + leb128(v as nat),
            ensures
                self.buf@ == old(self).buf@ + leb128(value as nat),
            decreases v,
        {
            if v < 0x80 {
                self.buf.push(v as u8);
                proof {
                    assert(leb128(v as nat) == seq![v as u8]);
                    assert(self.buf@ =~= old(self).buf@ + leb128(value as nat));
                }
                break;
            } else {
                let b = (#[verifier::truncate] (v as u8)) | 0x80u8;
                assert(b == ((v % 0x80) + 0x80) as u8) by (bit_vector)
                    requires
                        b == (v as u8) | 0x80u8,
                        v >= 0x80,
                ;
                let ghost before = self.buf@;
                self.buf.push(b);
                let next = v >> 7u32;
                assert(next == v / 0x80) by (bit_vector)
                    requires
                        next == v >> 7u32,
                ;
                proof {
                    assert(leb128(v as nat) == seq![((v as nat % 0x80) + 0x80) as u8] + leb128(v as nat / 0x80));
                    assert(self.buf@ + leb128(next as nat) =~= before + leb128(v as nat));
                }
                v = next;
            }
        }
    }

    /// Appends `value` in LEB128.
    pub fn write_u64(&mut self, value: u64)
        ensures
            final(self).buf@ == old(self).buf@ + leb128(value as nat),
    {
        let mut v = value;
        loop
            invariant_except_break
                old(self).buf@ + leb128(value as nat) == self.buf@ + leb128(v as nat),
            ensures
                self.buf@ == old(self).buf@ + leb128(value as nat),
            decreases v,
        {
            if v < 0x80 {
                self.buf.push(v as u8);
                proof {
                    assert(leb128(v as nat) == seq![v as u8]);
                    assert(self.buf@ =~= old(self).buf@ + leb128(value as nat));
                }
                break;
            } else {
                let b = (#[verifier::truncate] (v as u8)) | 0x80u8;
                assert(b == ((v % 0x80) + 0x80) as u8) by (bit_vector)
                    requires
                        b == (v as u8) | 0x80u8,
                        v >= 0x80,
                ;
                let ghost before = self.buf@;
                self.buf.push(b);
                let next = v >> 7u32;
                assert(next == v / 0x80) by (bit_vector)
                    requires
                        next == v >> 7u32,
                ;
                proof {
                    assert(leb128(v as nat) == seq![((v as nat % 0x80) + 0x80) as u8] + leb128(v as nat / 0x80));
                    assert(self.buf@ + leb128(next as nat) =~= before + leb128(v as nat));
                }
                v = next;
            }
        }
    }

    /// Appends `data` as it is.
    pub fn write_bytes(&mut self, data: &[u8])
        ensures
            final(self).buf@ == old(self).buf@ + data@,
    {
        let mut i: usize = 0;
        while i < data.len()
            invariant
                0 <= i <= data@.len(),
                self.buf@ == old(self).buf@ + data@.take(i as int),
            decreases data.len() - i,
        {
            self.buf.push(data[i]);
            proof {
                assert(data@.take(i + 1) =~= data@.take(i as int).push(data@[i as int]));
                assert(self.buf@ =~= old(self).buf@ + data@.take(i + 1));
            }
            i = i + 1;
        }
        proof {
            assert(data@.take(i as int) =~= data@);
        }
    }
}

} // verus!
