//! Decoder for the kernel's address-change notifications.
//!
//! A datagram received from the address-change multicast group holds a
//! chain of messages, each a fixed 16-byte header (length, type, flags,
//! sequence, port) followed by a type-specific payload. Only three message
//! types are recognized: address-added, address-removed, and the
//! end-of-multi-part marker; every other type is a protocol violation and
//! is reported as an error, never skipped. Address messages carry an
//! 8-byte fixed part (family, prefix length, flags, scope, interface
//! index) and then a chain of attribute records, each a 4-byte header
//! (length, type) plus payload, padded to 4-byte boundaries. Records whose
//! type marks them as "address" or "local address" carry a 4-byte IPv4
//! value; one event is produced per such record.
//!
//! The decoder works on one datagram at a time; the caller drains the
//! (non-blocking) socket datagram by datagram until it would block, so
//! bursts of kernel events grow the decoded batch on demand rather than
//! being dropped.

use vstd::prelude::*;
use crate::align4;
use crate::align4_spec;
use crate::lemma_align4_bounds;

verus! {

/// Message type of an address-added event (also its operation code).
pub const IPADD: u8 = 20;

/// Message type of an address-removed event (also its operation code).
pub const IPRMV: u8 = 21;

/// Message type of the end-of-multi-part marker.
pub const NL_DONE: u16 = 3;

/// Byte length of the fixed message header.
pub const MSG_HDRLEN: usize = 16;

/// Byte length of the fixed part of an address message payload.
pub const ADDR_HDRLEN: usize = 8;

/// Attribute type carrying the address of an interface.
pub const ATTR_ADDRESS: u16 = 1;

/// Attribute type carrying the local address of an interface.
pub const ATTR_LOCAL: u16 = 2;

/// One decoded interface-modification event: `modop` is `IPADD` or
/// `IPRMV`, `devidx` the OS interface index, `ipv4` the carried address
/// in the byte order in which it sits in the message.
#[derive(Clone, Copy, Debug, PartialEq, Eq, Structural)]
pub struct IfModMsg {
    pub devidx: u32,
    pub modop: u8,
    pub ipv4: u32,
}

/// How a datagram can violate the protocol. Any violation is fatal to the
/// caller: the decoder assumes an exhaustive, closed subset of the real
/// protocol and never guesses its way past a malformed message.
#[derive(Clone, Copy, Debug, PartialEq, Eq, Structural)]
pub enum NlError {
    /// A message header or payload runs past the end of the datagram,
    /// or a message is shorter than its own fixed parts.
    Truncated,
    /// A message type other than address-added, address-removed or the
    /// end-of-multi-part marker.
    UnknownType(u16),
    /// An attribute record is malformed: its length field is shorter than
    /// the record header, runs past its message, or an address record
    /// does not carry exactly four payload bytes.
    BadAttribute,
}

/// The 16-bit field at byte offset `i`, least-significant byte first.
pub open spec fn le16(s: Seq<u8>, i: int) -> u16 {
    (s[i] + s[i + 1] * 0x100) as u16
}

/// The 32-bit field at byte offset `i`, least-significant byte first.
pub open spec fn le32(s: Seq<u8>, i: int) -> u32 {
    (s[i] + s[i + 1] * 0x100 + s[i + 2] * 0x10000 + s[i + 3] * 0x1000000) as u32
}

/// Prepends an already-decoded prefix to the outcome of decoding a rest.
pub open spec fn res_cat(pre: Seq<IfModMsg>, rest: Result<Seq<IfModMsg>, NlError>) -> Result<
    Seq<IfModMsg>,
    NlError,
> {
    match rest {
        Ok(r) => Ok(pre + r),
        Err(e) => Err(e),
    }
}

/// The events carried by the attribute chain of one address message:
/// records from `off` (inclusive) to `end` (exclusive) within `s`, one
/// event per address or local-address record.
pub open spec fn parse_attrs(
    s: Seq<u8>,
    off: int,
    end: int,
    devidx: u32,
    modop: u8,
) -> Result<Seq<IfModMsg>, NlError>
    decreases end - off,
{
    if off + 4 > end {
        // fewer bytes than a record header remain: the chain is done
        Ok(Seq::empty())
    } else {
        let rlen = le16(s, off) as int;
        let rtyp = le16(s, off + 2);
        if rlen < 4 || rlen > end - off {
            Err(NlError::BadAttribute)
        } else {
            let next = if off + align4_spec(rlen) > end {
                end
            } else {
                off + align4_spec(rlen)
            };
            if rtyp == ATTR_ADDRESS || rtyp == ATTR_LOCAL {
                if rlen != 8 {
                    Err(NlError::BadAttribute)
                } else {
                    res_cat(
                        seq![IfModMsg { devidx, modop, ipv4: le32(s, off + 4) }],
                        parse_attrs(s, next, end, devidx, modop),
                    )
                }
            } else {
                parse_attrs(s, next, end, devidx, modop)
            }
        }
    }
}

/// The events carried by the message chain of one datagram, starting at
/// byte offset `off`.
pub open spec fn parse_msgs(s: Seq<u8>, off: int) -> Result<Seq<IfModMsg>, NlError>
    decreases s.len() - off,
{
    if off >= s.len() {
        Ok(Seq::empty())
    } else if off + MSG_HDRLEN > s.len() {
        Err(NlError::Truncated)
    } else {
        let mlen = le32(s, off) as int;
        let mtyp = le16(s, off + 4);
        if mlen < MSG_HDRLEN || mlen > s.len() - off {
            Err(NlError::Truncated)
        } else {
            let next = if off + align4_spec(mlen) > s.len() {
                s.len() as int
            } else {
                off + align4_spec(mlen)
            };
            if mtyp == NL_DONE {
                parse_msgs(s, next)
            } else if mtyp == IPADD as u16 || mtyp == IPRMV as u16 {
                if mlen < MSG_HDRLEN + ADDR_HDRLEN {
                    Err(NlError::Truncated)
                } else {
                    let devidx = le32(s, off + 20);
                    match parse_attrs(s, off + 24, off + mlen, devidx, mtyp as u8) {
                        Ok(batch) => res_cat(batch, parse_msgs(s, next)),
                        Err(e) => Err(e),
                    }
                }
            } else {
                Err(NlError::UnknownType(mtyp))
            }
        }
    }
}

/// Reads the 16-bit field at `i`.
fn read_u16(buf: &[u8], i: usize) -> (r: u16)
    requires
        i + 2 <= buf@.len(),
    ensures
        r == le16(buf@, i as int),
{
    buf[i] as u16 + buf[i + 1] as u16 * 0x100
}

/// Reads the 32-bit field at `i`.
fn read_u32(buf: &[u8], i: usize) -> (r: u32)
    requires
        i + 4 <= buf@.len(),
    ensures
        r == le32(buf@, i as int),
{
    buf[i] as u32 + buf[i + 1] as u32 * 0x100 + buf[i + 2] as u32 * 0x10000 + buf[i + 3] as u32
        * 0x1000000
}

/// Decodes the attribute chain of one address message, `start` to `end`.
fn parse_attr_chain(buf: &[u8], start: usize, end: usize, devidx: u32, modop: u8) -> (r: Result<
    Vec<IfModMsg>,
    NlError,
>)
    requires
        start <= end <= buf@.len(),
        buf@.len() + 3 <= usize::MAX,
    ensures
        match r {
            Ok(v) => parse_attrs(buf@, start as int, end as int, devidx, modop) == Ok::<
                Seq<IfModMsg>,
                NlError,
            >(v@),
            Err(e) => parse_attrs(buf@, start as int, end as int, devidx, modop) == Err::<
                Seq<IfModMsg>,
                NlError,
            >(e),
        },
{
    let mut batch: Vec<IfModMsg> = Vec::new();
    let mut aoff = start;
    while end - aoff >= 4
        invariant
            start <= aoff <= end <= buf@.len(),
            buf@.len() + 3 <= usize::MAX,
            parse_attrs(buf@, start as int, end as int, devidx, modop) == res_cat(
                batch@,
                parse_attrs(buf@, aoff as int, end as int, devidx, modop),
            ),
        decreases end - aoff,
    {
        let rlen = read_u16(buf, aoff) as usize;
        let rtyp = read_u16(buf, aoff + 2);
        if rlen < 4 || rlen > end - aoff {
            assert(parse_attrs(buf@, aoff as int, end as int, devidx, modop) == Err::<
                Seq<IfModMsg>,
                NlError,
            >(NlError::BadAttribute));
            return Err(NlError::BadAttribute);
        }
        let astep = align4(rlen);
        proof {
            lemma_align4_bounds(rlen as int);
        }
        let anext = if astep > end - aoff {
            end
        } else {
            aoff + astep
        };
        if rtyp == ATTR_ADDRESS || rtyp == ATTR_LOCAL {
            if rlen != 8 {
                assert(parse_attrs(buf@, aoff as int, end as int, devidx, modop) == Err::<
                    Seq<IfModMsg>,
                    NlError,
                >(NlError::BadAttribute));
                return Err(NlError::BadAttribute);
            }
            let ipv4 = read_u32(buf, aoff + 4);
            let ghost batch_pre = batch@;
            batch.push(IfModMsg { devidx, modop, ipv4 });
            proof {
                assert(parse_attrs(buf@, aoff as int, end as int, devidx, modop) == res_cat(
                    seq![IfModMsg { devidx, modop, ipv4 }],
                    parse_attrs(buf@, anext as int, end as int, devidx, modop),
                ));
                assert(batch@ == batch_pre + seq![IfModMsg { devidx, modop, ipv4 }]);
                lemma_res_cat_assoc(
                    batch_pre,
                    seq![IfModMsg { devidx, modop, ipv4 }],
                    parse_attrs(buf@, anext as int, end as int, devidx, modop),
                );
            }
        } else {
            assert(parse_attrs(buf@, aoff as int, end as int, devidx, modop) == parse_attrs(
                buf@,
                anext as int,
                end as int,
                devidx,
                modop,
            ));
        }
        aoff = anext;
    }
    proof {
        assert(parse_attrs(buf@, aoff as int, end as int, devidx, modop) == Ok::<
            Seq<IfModMsg>,
            NlError,
        >(Seq::empty()));
        assert(batch@ + Seq::<IfModMsg>::empty() =~= batch@);
    }
    Ok(batch)
}

/// Decodes one datagram into its interface-modification events.
///
/// Succeeds exactly when every message in the chain is well-formed and of
/// a recognized type; the first violation is returned as the error that
/// `parse_msgs` assigns to it.
pub fn parse_batch(buf: &[u8]) -> (r: Result<Vec<IfModMsg>, NlError>)
    requires
        buf@.len() + 3 <= usize::MAX,
    ensures
        match r {
            Ok(v) => parse_msgs(buf@, 0) == Ok::<Seq<IfModMsg>, NlError>(v@),
            Err(e) => parse_msgs(buf@, 0) == Err::<Seq<IfModMsg>, NlError>(e),
        },
{
    let len = buf.len();
    let mut events: Vec<IfModMsg> = Vec::new();
    let mut off: usize = 0;
    while off < len
        invariant
            off <= len,
            len == buf@.len(),
            len + 3 <= usize::MAX,
            parse_msgs(buf@, 0) == res_cat(events@, parse_msgs(buf@, off as int)),
        decreases len - off,
    {
        if len - off < MSG_HDRLEN {
            assert(parse_msgs(buf@, off as int) == Err::<Seq<IfModMsg>, NlError>(
                NlError::Truncated,
            ));
            return Err(NlError::Truncated);
        }
        let mlen = read_u32(buf, off) as usize;
        let mtyp = read_u16(buf, off + 4);
        if mlen < MSG_HDRLEN || mlen > len - off {
            assert(parse_msgs(buf@, off as int) == Err::<Seq<IfModMsg>, NlError>(
                NlError::Truncated,
            ));
            return Err(NlError::Truncated);
        }
        let step = align4(mlen);
        proof {
            lemma_align4_bounds(mlen as int);
        }
        let next = if step > len - off {
            len
        } else {
            off + step
        };
        if mtyp == NL_DONE {
            // the end-of-multi-part marker carries nothing
            assert(parse_msgs(buf@, off as int) == parse_msgs(buf@, next as int));
        } else if mtyp == IPADD as u16 || mtyp == IPRMV as u16 {
            if mlen < MSG_HDRLEN + ADDR_HDRLEN {
                assert(parse_msgs(buf@, off as int) == Err::<Seq<IfModMsg>, NlError>(
                    NlError::Truncated,
                ));
                return Err(NlError::Truncated);
            }
            let devidx = read_u32(buf, off + 20);
            match parse_attr_chain(buf, off + MSG_HDRLEN + ADDR_HDRLEN, off + mlen, devidx, mtyp
                as u8) {
                Ok(mut batch) => {
                    proof {
                        assert(parse_msgs(buf@, off as int) == res_cat(
                            batch@,
                            parse_msgs(buf@, next as int),
                        ));
                    }
                    let ghost events_pre = events@;
                    let ghost batch_snap = batch@;
                    events.append(&mut batch);
                    proof {
                        lemma_res_cat_assoc(events_pre, batch_snap, parse_msgs(buf@, next as int));
                    }
                },
                Err(e) => {
                    assert(parse_msgs(buf@, off as int) == Err::<Seq<IfModMsg>, NlError>(e));
                    return Err(e);
                },
            }
        } else {
            assert(parse_msgs(buf@, off as int) == Err::<Seq<IfModMsg>, NlError>(
                NlError::UnknownType(mtyp),
            ));
            return Err(NlError::UnknownType(mtyp));
        }
        off = next;
    }
    proof {
        assert(parse_msgs(buf@, off as int) == Ok::<Seq<IfModMsg>, NlError>(Seq::empty()));
        assert(events@ + Seq::<IfModMsg>::empty() =~= events@);
    }
    Ok(events)
}

/// Splicing a decoded prefix in two steps or one is the same.
proof fn lemma_res_cat_assoc(a: Seq<IfModMsg>, b: Seq<IfModMsg>, rest: Result<Seq<IfModMsg>, NlError>)
    ensures
        res_cat(a + b, rest) == res_cat(a, res_cat(b, rest)),
{
    match rest {
        Ok(r) => {
            assert((a + b) + r =~= a + (b + r));
        },
        Err(_) => {},
    }
}

/// Every event a well-formed attribute chain yields carries the chain's
/// operation and interface index.
pub proof fn lemma_attrs_ops(s: Seq<u8>, off: int, end: int, devidx: u32, modop: u8)
    ensures
        parse_attrs(s, off, end, devidx, modop) matches Ok(v) ==> forall|k: int|
            #![trigger v[k]]
            0 <= k < v.len() ==> v[k].modop == modop && v[k].devidx == devidx,
    decreases end - off,
{
    if off + 4 > end {
    } else {
        let rlen = le16(s, off) as int;
        let rtyp = le16(s, off + 2);
        if rlen < 4 || rlen > end - off {
        } else {
            let next = if off + align4_spec(rlen) > end {
                end
            } else {
                off + align4_spec(rlen)
            };
            lemma_attrs_ops(s, next, end, devidx, modop);
            if (rtyp == ATTR_ADDRESS || rtyp == ATTR_LOCAL) && rlen == 8 {
                let head = seq![IfModMsg { devidx, modop, ipv4: le32(s, off + 4) }];
                match parse_attrs(s, next, end, devidx, modop) {
                    Ok(r) => {
                        assert forall|k: int| 0 <= k < (head + r).len() implies (head
                            + r)[k].modop == modop && (head + r)[k].devidx == devidx by {
                            if k > 0 {
                                assert((head + r)[k] == r[k - 1]);
                            }
                        }
                    },
                    Err(_) => {},
                }
            }
        }
    }
}

/// Every event a well-formed datagram yields carries an address-added or
/// address-removed operation: the decoder produces no other kind.
pub proof fn lemma_msgs_ops(s: Seq<u8>, off: int)
    ensures
        parse_msgs(s, off) matches Ok(v) ==> forall|k: int|
            #![trigger v[k]]
            0 <= k < v.len() ==> v[k].modop == IPADD || v[k].modop == IPRMV,
    decreases s.len() - off,
{
    if off >= s.len() {
    } else if off + MSG_HDRLEN > s.len() {
    } else {
        let mlen = le32(s, off) as int;
        let mtyp = le16(s, off + 4);
        if mlen < MSG_HDRLEN || mlen > s.len() - off {
        } else {
            let next = if off + align4_spec(mlen) > s.len() {
                s.len() as int
            } else {
                off + align4_spec(mlen)
            };
            lemma_msgs_ops(s, next);
            if mtyp == IPADD as u16 || mtyp == IPRMV as u16 {
                if mlen >= MSG_HDRLEN + ADDR_HDRLEN {
                    let devidx = le32(s, off + 20);
                    lemma_attrs_ops(s, off + 24, off + mlen, devidx, mtyp as u8);
                    match parse_attrs(s, off + 24, off + mlen, devidx, mtyp as u8) {
                        Ok(batch) => {
                            match parse_msgs(s, next) {
                                Ok(r) => {
                                    assert forall|k: int| 0 <= k < (batch + r).len() implies (batch
                                        + r)[k].modop == IPADD || (batch + r)[k].modop == IPRMV by {
                                        if k < batch.len() {
                                            assert((batch + r)[k] == batch[k]);
                                        } else {
                                            assert((batch + r)[k] == r[k - batch.len()]);
                                        }
                                    }
                                },
                                Err(_) => {},
                            }
                        },
                        Err(_) => {},
                    }
                }
            }
        }
    }
}

} // verus!
