//! Length-prefixed frames: a big-endian `u32` byte count followed by that
//! many payload bytes.

use vstd::prelude::*;

verus! {

/// The four big-endian bytes of `n`, most significant first.
pub open spec fn be_bytes(n: nat) -> Seq<u8> {
    seq![
        (n / 0x100_0000) as u8,
        ((n / 0x1_0000) % 0x100) as u8,
        ((n / 0x100) % 0x100) as u8,
        (n % 0x100) as u8,
    ]
}

/// The number that the first four bytes of `b` encode, most significant first.
pub open spec fn be_value(b: Seq<u8>) -> nat {
    (b[0] as nat) * 0x100_0000 + (b[1] as nat) * 0x1_0000 + (b[2] as nat) * 0x100 + (b[3] as nat)
}

/// The frame that carries `payload`.
pub open spec fn framed(payload: Seq<u8>) -> Seq<u8> {
    be_bytes(payload.len()) + payload
}

/// Reading the header back gives the number that was written.
pub proof fn lemma_be_roundtrip(n: nat)
    requires
        n <= u32::MAX,
    ensures
        be_bytes(n).len() == 4,
        be_value(be_bytes(n)) == n,
{
    assert(n == (n / 0x100_0000) * 0x100_0000 + ((n / 0x1_0000) % 0x100) * 0x1_0000
        + ((n / 0x100) % 0x100) * 0x100 + n % 0x100) by (nonlinear_arith);
}

/// The big-endian header of `n`.
pub fn header(n: u32) -> (h: Vec<u8>)
    ensures
        h@ == be_bytes(n as nat),
{
    let mut h: Vec<u8> = Vec::new();
    h.push((n / 0x100_0000) as u8);
    h.push(((n / 0x1_0000) % 0x100) as u8);
    h.push(((n / 0x100) % 0x100) as u8);
    h.push((n % 0x100) as u8);
    assert(h@ =~= be_bytes(n as nat));
    h
}

/// The number in the first four bytes of `b`, read as a big-endian `u32`.
pub fn read_header(b: &[u8]) -> (n: u32)
    requires
        b@.len() >= 4,
    ensures
        n as nat == be_value(b@),
{
    let b0: u32 = b[0] as u32;
    let b1: u32 = b[1] as u32;
    let b2: u32 = b[2] as u32;
    let b3: u32 = b[3] as u32;
    b0 * 0x100_0000 + b1 * 0x1_0000 + b2 * 0x100 + b3
}


/// What the front of a receive buffer holds.
#[derive(Debug, Clone, Copy, PartialEq, Eq, Structural)]
pub enum FrameStatus {
    /// A whole frame, whose payload is `len` bytes long, starts the buffer.
    Complete { len: usize },
    /// The frame that starts the buffer still lacks `missing` bytes.
    Incomplete { missing: usize },
}

/// What the front of `buf` holds: fewer than four bytes leave the header
/// incomplete; otherwise the header tells how many payload bytes must follow.
pub open spec fn status_of(buf: Seq<u8>) -> FrameStatus {
    if buf.len() < 4 {
        FrameStatus::Incomplete { missing: (4 - buf.len()) as usize }
    } else if buf.len() < 4 + be_value(buf) {
        FrameStatus::Incomplete { missing: (4 + be_value(buf) - buf.len()) as usize }
    } else {
        FrameStatus::Complete { len: be_value(buf) as usize }
    }
}

/// Why a payload could not be framed.
#[derive(Debug, Clone, Copy, PartialEq, Eq, Structural)]
pub enum FrameError {
    /// The payload is longer than a frame header can describe.
    TooLarge,
}

/// The frame that carries `payload`, refused when the payload is longer than
/// `u32::MAX` bytes.
pub fn encode_frame(payload: &[u8]) -> (r: Result<Vec<u8>, FrameError>)
    ensures
        match r {
            Ok(f) => payload@.len() <= u32::MAX && f@ == framed(payload@),
            Err(e) => payload@.len() > u32::MAX && e == FrameError::TooLarge,
        },
{
    if payload.len() > u32::MAX as usize {
        return Err(FrameError::TooLarge);
    }
    let mut f: Vec<u8> = Vec::new();
    append_frame(&mut f, payload);
    assert(f@ =~= framed(payload@));
    Ok(f)
}

/// Looks at the front of `buf`: whether a whole frame is there, and if not,
/// how many more bytes it needs.
pub fn frame_status(buf: &[u8]) -> (s: FrameStatus)
    ensures
        s == status_of(buf@),
{
    if buf.len() < 4 {
        return FrameStatus::Incomplete { missing: 4 - buf.len() };
    }
    let n = read_header(buf);
    let body = buf.len() - 4;
    if body < n as usize {
        FrameStatus::Incomplete { missing: n as usize - body }
    } else {
        FrameStatus::Complete { len: n as usize }
    }
}

/// Appends the frame of `payload` to `dst`.
pub fn append_frame(dst: &mut Vec<u8>, payload: &[u8])
    requires
        payload@.len() <= u32::MAX,
    ensures
        final(dst)@ == old(dst)@ + framed(payload@),
{
    let h = header(payload.len() as u32);
    let mut i: usize = 0;
    while i < 4
        invariant
            h@ == be_bytes(payload@.len()),
            i <= 4,
            dst@ == old(dst)@ + h@.take(i as int),
        decreases 4 - i,
    {
        dst.push(h[i]);
        assert(h@.take(i + 1) =~= h@.take(i as int).push(h@[i as int]));
        i = i + 1;
    }
    assert(h@.take(4) =~= h@);
    let ghost mid = dst@;
    let mut j: usize = 0;
    while j < payload.len()
        invariant
            j <= payload@.len(),
            dst@ == mid + payload@.take(j as int),
        decreases payload@.len() - j,
    {
        dst.push(payload[j]);
        assert(payload@.take(j + 1) =~= payload@.take(j as int).push(payload@[j as int]));
        j = j + 1;
    }
    assert(payload@.take(payload@.len() as int) =~= payload@);
    assert(dst@ =~= old(dst)@ + framed(payload@));
}

/// Removes the frame that starts `buf` and hands back its payload, when the
/// whole frame is there; otherwise leaves `buf` as it is.
pub fn take_frame(buf: &mut Vec<u8>) -> (payload: Option<Vec<u8>>)
    ensures
        match status_of(old(buf)@) {
            FrameStatus::Complete { len } => {
                &&& payload matches Some(p)
                &&& p@ == old(buf)@.subrange(4, 4 + len)
                &&& final(buf)@ == old(buf)@.subrange(4 + len, old(buf)@.len() as int)
            },
            FrameStatus::Incomplete { .. } => {
                &&& payload is None
                &&& final(buf)@ == old(buf)@
            },
        },
{
    match frame_status(buf.as_slice()) {
        FrameStatus::Incomplete { .. } => None,
        FrameStatus::Complete { len } => {
            let total = buf.len();
            assert(4 + len <= total);
            let end = 4 + len;
            let mut p: Vec<u8> = Vec::new();
            let mut i: usize = 4;
            while i < end
                invariant
                    4 <= i <= end,
                    end <= buf@.len(),
                    p@ == buf@.subrange(4, i as int),
                decreases end - i,
            {
                p.push(buf[i]);
                assert(buf@.subrange(4, i + 1) =~= buf@.subrange(4, i as int).push(buf@[i as int]));
                i = i + 1;
            }
            let mut rest: Vec<u8> = Vec::new();
            let mut k: usize = end;
            while k < buf.len()
                invariant
                    end <= k <= buf@.len(),
                    rest@ == buf@.subrange(end as int, k as int),
                decreases buf@.len() - k,
            {
                rest.push(buf[k]);
                assert(buf@.subrange(end as int, k + 1) =~= buf@.subrange(end as int, k as int).push(buf@[k as int]));
                k = k + 1;
            }
            *buf = rest;
            Some(p)
        },
    }
}

/// A frame is read back as it was written: the buffer that starts with the
/// frame of `payload` holds a whole frame of that payload, whatever follows it.
pub proof fn lemma_frame_roundtrip(payload: Seq<u8>, rest: Seq<u8>)
    requires
        payload.len() <= u32::MAX,
    ensures
        status_of(framed(payload) + rest) == (FrameStatus::Complete { len: payload.len() as usize }),
        (framed(payload) + rest).subrange(4, 4 + payload.len() as int) == payload,
        (framed(payload) + rest).subrange(4 + payload.len() as int, (framed(payload) + rest).len() as int) == rest,
{
    lemma_be_roundtrip(payload.len());
    let all = framed(payload) + rest;
    assert(be_value(all) == be_value(be_bytes(payload.len())));
    assert(all.subrange(4, 4 + payload.len() as int) =~= payload);
    assert(all.subrange(4 + payload.len() as int, all.len() as int) =~= rest);
}


/// The frames of `payloads`, one after another.
pub open spec fn concat_frames(payloads: Seq<Seq<u8>>) -> Seq<u8>
    decreases payloads.len(),
{
    if payloads.len() == 0 {
        Seq::empty()
    } else {
        framed(payloads[0]) + concat_frames(payloads.drop_first())
    }
}

/// Appending the frame of one more payload to a run of frames gives the run
/// of frames of all the payloads.
pub proof fn lemma_concat_frames_push(payloads: Seq<Seq<u8>>, payload: Seq<u8>)
    ensures
        concat_frames(payloads.push(payload)) == concat_frames(payloads) + framed(payload),
    decreases payloads.len(),
{
    if payloads.len() == 0 {
        assert(payloads.push(payload).drop_first() =~= Seq::<Seq<u8>>::empty());
        assert(concat_frames(payloads.push(payload).drop_first()) == Seq::<u8>::empty());
        assert(payloads.push(payload)[0] == payload);
        assert(concat_frames(payloads.push(payload)) =~= framed(payload));
        assert(concat_frames(payloads) == Seq::<u8>::empty());
    } else {
        lemma_concat_frames_push(payloads.drop_first(), payload);
        assert(payloads.push(payload).drop_first() =~= payloads.drop_first().push(payload));
        assert(concat_frames(payloads.push(payload)) =~= concat_frames(payloads) + framed(payload));
    }
}

/// A run of frames reads back as the payloads it was made of: its first whole
/// frame carries the first payload, and what follows it is the run of the others.
pub proof fn lemma_frames_read_back(payloads: Seq<Seq<u8>>)
    requires
        payloads.len() > 0,
        forall|i: int| 0 <= i < payloads.len() ==> (#[trigger] payloads[i]).len() <= u32::MAX,
    ensures
        status_of(concat_frames(payloads)) == (FrameStatus::Complete { len: payloads[0].len() as usize }),
        concat_frames(payloads).subrange(4, 4 + payloads[0].len() as int) == payloads[0],
        concat_frames(payloads).subrange(4 + payloads[0].len() as int, concat_frames(payloads).len() as int)
            == concat_frames(payloads.drop_first()),
{
    lemma_frame_roundtrip(payloads[0], concat_frames(payloads.drop_first()));
}

} // verus!
