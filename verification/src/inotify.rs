//! Decoder for file-change notification event buffers.
//!
//! One read from a notification queue yields a chain of events, each a
//! fixed 16-byte header (watch handle, mask, cookie, name length)
//! followed by that many name bytes, NUL-padded. The carried name, up to
//! its first NUL, is the file the event names; it resolves, together
//! with the watch handle, to one watched attribute.

use vstd::prelude::*;
use crate::netlink::le32;

verus! {

/// Byte length of the fixed event header.
pub const EVT_HDRLEN: usize = 16;

/// One decoded notification event.
pub struct InotifyMsg {
    pub wd: i32,
    pub mask: u32,
    pub cookie: u32,
    pub len: u32,
    name: Vec<u8>,
}

/// Ghost image of one notification event; `name` holds the raw padded
/// name bytes.
pub ghost struct InotifyMsgView {
    pub wd: i32,
    pub mask: u32,
    pub cookie: u32,
    pub len: u32,
    pub name: Seq<u8>,
}

impl View for InotifyMsg {
    type V = InotifyMsgView;

    closed spec fn view(&self) -> InotifyMsgView {
        InotifyMsgView {
            wd: self.wd,
            mask: self.mask,
            cookie: self.cookie,
            len: self.len,
            name: self.name@,
        }
    }
}

/// How an event buffer can be malformed: an event header or its name
/// bytes run past the end of the buffer. Fatal to the caller.
#[derive(Clone, Copy, Debug, PartialEq, Eq, Structural)]
pub enum InotifyError {
    Truncated,
}

/// The name bytes before the first NUL.
pub open spec fn nul_trim(s: Seq<u8>) -> Seq<u8>
    decreases s.len(),
{
    if s.len() == 0 {
        s
    } else if s[0] == 0 {
        Seq::empty()
    } else {
        seq![s[0]] + nul_trim(s.drop_first())
    }
}

/// The signed watch handle the 32-bit field at `i` denotes.
pub open spec fn le32_signed(s: Seq<u8>, i: int) -> i32 {
    if le32(s, i) <= i32::MAX {
        le32(s, i) as i32
    } else {
        (le32(s, i) - 0x1_0000_0000) as i32
    }
}

/// The events held in the buffer from offset `off` on.
pub open spec fn parse_events(s: Seq<u8>, off: int) -> Result<Seq<InotifyMsgView>, InotifyError>
    decreases s.len() - off,
{
    if off >= s.len() {
        Ok(Seq::empty())
    } else if off + EVT_HDRLEN > s.len() {
        Err(InotifyError::Truncated)
    } else {
        let nlen = le32(s, off + 12) as int;
        if nlen > s.len() - off - EVT_HDRLEN {
            Err(InotifyError::Truncated)
        } else {
            let head = InotifyMsgView {
                wd: le32_signed(s, off),
                mask: le32(s, off + 4),
                cookie: le32(s, off + 8),
                len: le32(s, off + 12),
                name: s.subrange(off + 16, off + 16 + nlen),
            };
            match parse_events(s, off + 16 + nlen) {
                Ok(rest) => Ok(seq![head] + rest),
                Err(e) => Err(e),
            }
        }
    }
}

/// The ghost images of a sequence of decoded events.
pub open spec fn msgs_view(s: Seq<InotifyMsg>) -> Seq<InotifyMsgView> {
    s.map_values(|m: InotifyMsg| m@)
}

impl InotifyMsg {
    /// The carried file name: the name bytes before the first NUL.
    pub fn get_name(&self) -> (r: Vec<u8>)
        ensures
            r@ == nul_trim(self@.name),
    {
        let ghost s = self.name@;
        let mut out: Vec<u8> = Vec::new();
        let mut i: usize = 0;
        proof {
            assert(s.skip(0) =~= s);
            assert(out@ + nul_trim(s) =~= nul_trim(s));
        }
        while i < self.name.len() && self.name[i] != 0
            invariant
                i <= s.len(),
                s == self.name@,
                nul_trim(s) == out@ + nul_trim(s.skip(i as int)),
            decreases s.len() - i,
        {
            let ghost out0 = out@;
            out.push(self.name[i]);
            proof {
                assert(s.skip(i as int)[0] == s[i as int]);
                assert(s.skip(i as int).drop_first() =~= s.skip(i + 1));
                assert(nul_trim(s.skip(i as int)) == seq![s[i as int]] + nul_trim(s.skip(i + 1)));
                assert(out0 + (seq![s[i as int]] + nul_trim(s.skip(i + 1))) =~= out@ + nul_trim(
                    s.skip(i + 1),
                ));
            }
            i += 1;
        }
        proof {
            if i < self.name.len() {
                assert(s.skip(i as int)[0] == 0);
                assert(nul_trim(s.skip(i as int)) =~= Seq::<u8>::empty());
            } else {
                assert(s.skip(i as int) =~= Seq::<u8>::empty());
            }
            assert(out@ + Seq::<u8>::empty() =~= out@);
        }
        out
    }
}

/// Reads the 32-bit field at `i`.
fn read_le32(buf: &[u8], i: usize) -> (r: u32)
    requires
        i + 4 <= buf@.len(),
    ensures
        r == le32(buf@, i as int),
{
    buf[i] as u32 + buf[i + 1] as u32 * 0x100 + buf[i + 2] as u32 * 0x10000 + buf[i + 3] as u32
        * 0x1000000
}

/// Copies `buf[from..to]`.
fn copy_range(buf: &[u8], from: usize, to: usize) -> (r: Vec<u8>)
    requires
        from <= to <= buf@.len(),
    ensures
        r@ == buf@.subrange(from as int, to as int),
{
    let mut out: Vec<u8> = Vec::new();
    let mut i = from;
    while i < to
        invariant
            from <= i <= to <= buf@.len(),
            out@ == buf@.subrange(from as int, i as int),
        decreases to - i,
    {
        out.push(buf[i]);
        proof {
            assert(buf@.subrange(from as int, i + 1) =~= buf@.subrange(from as int, i as int).push(
                buf@[i as int],
            ));
        }
        i += 1;
    }
    out
}

/// Prepends already-decoded events to the outcome of decoding a rest.
pub open spec fn evt_cat(pre: Seq<InotifyMsgView>, rest: Result<Seq<InotifyMsgView>, InotifyError>) -> Result<
    Seq<InotifyMsgView>,
    InotifyError,
> {
    match rest {
        Ok(r) => Ok(pre + r),
        Err(e) => Err(e),
    }
}

/// Decodes one notification buffer into its events. Succeeds exactly
/// when no event runs past the end of the buffer.
pub fn parse_inotify_batch(buf: &[u8]) -> (r: Result<Vec<InotifyMsg>, InotifyError>)
    ensures
        match r {
            Ok(v) => parse_events(buf@, 0) == Ok::<Seq<InotifyMsgView>, InotifyError>(msgs_view(v@)),
            Err(e) => parse_events(buf@, 0) == Err::<Seq<InotifyMsgView>, InotifyError>(e),
        },
{
    let len = buf.len();
    let mut events: Vec<InotifyMsg> = Vec::new();
    let mut off: usize = 0;
    proof {
        assert(msgs_view(events@) =~= Seq::<InotifyMsgView>::empty());
        assert(evt_cat(msgs_view(events@), parse_events(buf@, 0)) == parse_events(buf@, 0));
    }
    while off < len
        invariant
            off <= len,
            len == buf@.len(),
            parse_events(buf@, 0) == evt_cat(msgs_view(events@), parse_events(buf@, off as int)),
        decreases len - off,
    {
        if len - off < EVT_HDRLEN {
            assert(parse_events(buf@, off as int) == Err::<Seq<InotifyMsgView>, InotifyError>(
                InotifyError::Truncated,
            ));
            return Err(InotifyError::Truncated);
        }
        let nlen_raw = read_le32(buf, off + 12);
        let nlen = nlen_raw as usize;
        if nlen > len - off - EVT_HDRLEN {
            assert(parse_events(buf@, off as int) == Err::<Seq<InotifyMsgView>, InotifyError>(
                InotifyError::Truncated,
            ));
            return Err(InotifyError::Truncated);
        }
        let wd_raw = read_le32(buf, off);
        let wd: i32 = if wd_raw <= i32::MAX as u32 {
            wd_raw as i32
        } else {
            ((wd_raw as i64) - 0x1_0000_0000i64) as i32
        };
        let msg = InotifyMsg {
            wd,
            mask: read_le32(buf, off + 4),
            cookie: read_le32(buf, off + 8),
            len: nlen_raw,
            name: copy_range(buf, off + 16, off + 16 + nlen),
        };
        let next = off + EVT_HDRLEN + nlen;
        proof {
            assert(wd == le32_signed(buf@, off as int));
            assert(parse_events(buf@, off as int) == evt_cat(
                seq![msg@],
                parse_events(buf@, next as int),
            ));
        }
        let ghost events_pre = events@;
        events.push(msg);
        proof {
            assert(msgs_view(events@) =~= msgs_view(events_pre).push(msg@));
            assert(msgs_view(events_pre) + (seq![msg@] + match parse_events(buf@, next as int) {
                Ok(rest) => rest,
                Err(_) => Seq::empty(),
            }) =~= msgs_view(events@) + match parse_events(buf@, next as int) {
                Ok(rest) => rest,
                Err(_) => Seq::empty(),
            });
        }
        off = next;
    }
    proof {
        assert(parse_events(buf@, off as int) == Ok::<Seq<InotifyMsgView>, InotifyError>(
            Seq::empty(),
        ));
        assert(msgs_view(events@) + Seq::<InotifyMsgView>::empty() =~= msgs_view(events@));
    }
    Ok(events)
}

} // verus!
