//! The media value objects carried in inbound payloads: a piece of media,
//! what is currently playing, and one queue request.
//!
//! Times come off the wire as JSON numbers of seconds, possibly fractional.
//! They are held here as integer nanoseconds, fractional seconds truncated
//! to nanosecond precision; a value that is not a plain decimal falls back
//! to zero rather than spreading a bad reading. The clock-skew correction
//! for the playing deadline takes the local time as an argument, so the
//! computation itself is plain arithmetic.

use vstd::prelude::*;
use vstd::string::StringSliceAdditionalSpecFns;

verus! {

use crate::json::{Value, obj_field, str_field, int_field, get_field, bytes_of, is_digit,
    digits_val};

/// One piece of media, as the server describes it.
#[derive(Clone, Debug, PartialEq, Eq)]
pub struct Media {
    /// The media's key, used to request playback.
    pub key: Vec<u8>,
    /// The artist name.
    pub artist: Vec<u8>,
    /// The title.
    pub title: Vec<u8>,
    /// The length in nanoseconds.
    pub length_ns: i64,
    /// The key of the user who uploaded it.
    pub uploaded_by: Vec<u8>,
}

/// What is currently playing.
#[derive(Clone, Debug, PartialEq, Eq)]
pub struct Playing {
    /// The key of the user who requested it, when someone did.
    pub requested_by: Option<Vec<u8>>,
    /// When it ends, in nanoseconds of local epoch time, corrected for the
    /// skew between the server clock and the local clock.
    pub end_time_ns: i64,
    /// The media being played.
    pub media: Media,
}

/// One entry of the request queue.
#[derive(Clone, Debug, PartialEq, Eq)]
pub struct Request {
    /// The key of the user who requested it, when someone did.
    pub by: Option<Vec<u8>>,
    /// The queue entry's own key.
    pub key: u64,
    /// The media requested.
    pub media: Media,
}

/// `x`, clamped into the `i64` range.
pub open spec fn sat_i64(x: int) -> int {
    if x > i64::MAX {
        i64::MAX as int
    } else if x < i64::MIN {
        i64::MIN as int
    } else {
        x
    }
}

/// The end of the run of decimal digits opening at `i`.
pub open spec fn sp_digits_end(s: Seq<u8>, i: int) -> int
    decreases s.len() - i,
{
    if 0 <= i < s.len() && is_digit(s[i]) {
        sp_digits_end(s, i + 1)
    } else {
        i
    }
}

/// What the first up-to-nine fractional digits must be scaled by to give
/// nanoseconds.
pub open spec fn frac_scale(l: int) -> int {
    if l >= 9 {
        1
    } else if l == 8 {
        10
    } else if l == 7 {
        100
    } else if l == 6 {
        1000
    } else if l == 5 {
        10000
    } else if l == 4 {
        100000
    } else if l == 3 {
        1000000
    } else if l == 2 {
        10000000
    } else if l == 1 {
        100000000
    } else {
        1000000000
    }
}

/// The nanosecond value of the fractional digits `f`, truncated to
/// nanosecond precision.
pub open spec fn frac_ns(f: Seq<u8>) -> int {
    if f.len() >= 9 {
        digits_val(f.take(9)) as int
    } else {
        digits_val(f) as int * frac_scale(f.len() as int)
    }
}

/// The nanosecond value of a plain decimal text: an optional minus sign,
/// digits, and optionally a dot and more digits. Anything else reads as
/// zero.
pub open spec fn dec_ns_of(raw: Seq<u8>) -> int {
    let neg = raw.len() > 0 && raw[0] == 45;
    let i0: int = if neg {
        1
    } else {
        0
    };
    let ie = sp_digits_end(raw, i0);
    let sgn: int = if neg {
        -1
    } else {
        1
    };
    if ie == i0 {
        0
    } else if ie == raw.len() {
        sgn * (digits_val(raw.subrange(i0, ie)) * 1000000000)
    } else if raw[ie] == 46 {
        let fe = sp_digits_end(raw, ie + 1);
        if fe == raw.len() && fe > ie + 1 {
            sgn * (digits_val(raw.subrange(i0, ie)) * 1000000000 + frac_ns(
                raw.subrange(ie + 1, fe),
            ))
        } else {
            0
        }
    } else {
        0
    }
}

/// The nanosecond value of a numeric JSON field: an integer is seconds, a
/// kept-raw number literal is read as a plain decimal.
pub open spec fn ns_of_num(v: Value) -> Option<int> {
    match v {
        Value::Int(u) => Some(u as int * 1000000000),
        Value::Num(raw) => Some(dec_ns_of(raw@)),
        _ => None,
    }
}

/// The nanosecond value of the field `key` of `m`, when it is numeric.
pub open spec fn ns_field(m: Value, key: Seq<u8>) -> Option<int> {
    match obj_field(m, key) {
        Some(f) => ns_of_num(f),
        None => None,
    }
}

/// A digit string's value never shrinks as the string grows to the right.
proof fn lemma_digits_val_mono(t: Seq<u8>, k: int)
    requires
        0 <= k <= t.len(),
    ensures
        digits_val(t) >= digits_val(t.take(k)),
    decreases t.len() - k,
{
    if k < t.len() {
        let t1 = t.take(k + 1);
        assert(t1.take(k) =~= t.take(k));
        assert(digits_val(t1) == digits_val(t.take(k)) * 10 + (t1[k] - 48) as nat);
        lemma_digits_val_mono(t, k + 1);
    } else {
        assert(t.take(k) =~= t);
    }
}

/// The end of the run of decimal digits opening at `i`.
fn scan_digits_end(s: &[u8], i: usize) -> (r: usize)
    requires
        i <= s@.len(),
    ensures
        i <= r <= s@.len(),
        r as int == sp_digits_end(s@, i as int),
    {
    let mut p = i;
    while p < s.len()
        invariant
            i <= p <= s@.len(),
            sp_digits_end(s@, i as int) == sp_digits_end(s@, p as int),
        decreases s@.len() - p,
    {
        let b = s[p];
        if !(48 <= b && b <= 57) {
            return p;
        }
        p = p + 1;
    }
    p
}

/// Reads the value of the digits `s[from..to]`, or learns that it exceeds
/// `u64::MAX`.
fn digits_value(s: &[u8], from: usize, to: usize) -> (r: Option<u64>)
    requires
        from <= to <= s@.len(),
        forall|q: int| from <= q < to ==> is_digit(#[trigger] s@[q]),
    ensures
        match r {
            Some(u) => u as nat == digits_val(s@.subrange(from as int, to as int)),
            None => digits_val(s@.subrange(from as int, to as int)) > u64::MAX,
        },
{
    let ghost token = s@.subrange(from as int, to as int);
    let mut acc: u64 = 0;
    let mut k = from;
    while k < to
        invariant
            from <= k <= to <= s@.len(),
            token == s@.subrange(from as int, to as int),
            forall|q: int| from <= q < to ==> is_digit(#[trigger] s@[q]),
            acc as nat == digits_val(s@.subrange(from as int, k as int)),
        decreases to - k,
    {
        let d = s[k] - 48;
        proof {
            let t1 = s@.subrange(from as int, k + 1);
            assert(t1.take(t1.len() - 1) =~= s@.subrange(from as int, k as int));
            assert(t1[t1.len() - 1] == s@[k as int]);
        }
        if acc > (u64::MAX - d as u64) / 10 {
            proof {
                assert(acc as nat * 10 + d as nat > u64::MAX) by (nonlinear_arith)
                    requires
                        acc as nat > (u64::MAX - d as u64) as nat / 10,
                        d < 10,
                ;
                lemma_digits_val_mono(token, k + 1 - from);
                assert(token.take(k + 1 - from) =~= s@.subrange(from as int, k + 1));
            }
            return None;
        }
        proof {
            assert(acc as nat * 10 + d as nat <= u64::MAX) by (nonlinear_arith)
                requires
                    acc as nat <= (u64::MAX - d as u64) as nat / 10,
                    d < 10,
            ;
        }
        acc = acc * 10 + d as u64;
        k = k + 1;
    }
    assert(token =~= s@.subrange(from as int, k as int));
    Some(acc)
}

/// Clamps a wide value into the `i64` range.
fn clamp_i64(x: i128) -> (r: i64)
    ensures
        r as int == sat_i64(x as int),
{
    if x > i64::MAX as i128 {
        i64::MAX
    } else if x < i64::MIN as i128 {
        i64::MIN
    } else {
        x as i64
    }
}

/// Reads a plain decimal text as nanoseconds, truncating fractional
/// seconds to nanosecond precision and clamping into the `i64` range.
#[verifier::rlimit(90)]
#[verifier::spinoff_prover]
pub fn parse_dec_ns(raw: &[u8]) -> (r: i64)
    ensures
        r as int == sat_i64(dec_ns_of(raw@)),
{
    let neg = raw.len() > 0 && raw[0] == 45;
    let i0: usize = if neg {
        1
    } else {
        0
    };
    let ie = scan_digits_end(raw, i0);
    if ie == i0 {
        return 0;
    }
    let flen: usize = if ie == raw.len() {
        0
    } else {
        if raw[ie] != 46 {
            return 0;
        }
        let fe = scan_digits_end(raw, ie + 1);
        if fe != raw.len() || fe == ie + 1 {
            return 0;
        }
        fe - (ie + 1)
    };
    proof {
        assert forall|q: int| i0 <= q < ie implies is_digit(#[trigger] raw@[q]) by {
            lemma_digits_run(raw@, i0 as int, q);
        }
    }
    let int_val = digits_value(raw, i0, ie);
    let frac: u64 = if flen == 0 {
        0
    } else {
        proof {
            assert forall|q: int| ie + 1 <= q < ie + 1 + flen implies is_digit(
                #[trigger] raw@[q],
            ) by {
                lemma_digits_run(raw@, ie + 1, q);
            }
        }
        let taken: usize = if flen >= 9 {
            9
        } else {
            flen
        };
        let fv = match digits_value(raw, ie + 1, ie + 1 + taken) {
            Some(u) => u,
            None => {
                proof {
                    let f = raw@.subrange(ie + 1, ie + 1 + taken as int);
                    lemma_digits_val_bound(f);
                }
                0
            },
        };
        let scale: u64 = if taken >= 9 {
            1
        } else if taken == 8 {
            10
        } else if taken == 7 {
            100
        } else if taken == 6 {
            1000
        } else if taken == 5 {
            10000
        } else if taken == 4 {
            100000
        } else if taken == 3 {
            1000000
        } else if taken == 2 {
            10000000
        } else {
            100000000
        };
        proof {
            let f = raw@.subrange(ie + 1, ie + 1 + taken as int);
            lemma_digits_val_bound(f);
            let full = raw@.subrange(ie + 1, ie + 1 + flen as int);
            if flen >= 9 {
                assert(full.take(9) =~= f);
            } else {
                assert(full =~= f);
            }
            assert(fv < 1000000000);
            assert(fv as nat * scale as nat <= 99999999900000000) by (nonlinear_arith)
                requires
                    fv < 1000000000,
                    scale <= 100000000,
            ;
            assert(fv as nat * scale as nat == frac_ns(full)) by {
                if flen >= 9 {
                    assert(scale == 1);
                    assert(fv as nat * 1 == fv as nat);
                } else {
                    assert(scale as int == frac_scale(flen as int));
                }
            }
        }
        fv * scale
    };
    match int_val {
        Some(iv) => {
            let magnitude: i128 = (iv as i128) * 1000000000 + (frac as i128);
            let signed: i128 = if neg {
                -magnitude
            } else {
                magnitude
            };
            proof {
                let intpart = raw@.subrange(i0 as int, ie as int);
                let sgn: int = if neg {
                    -1
                } else {
                    1
                };
                if flen == 0 {
                    assert(ie == raw@.len());
                    assert(dec_ns_of(raw@) == sgn * (digits_val(intpart) * 1000000000));
                } else {
                    let full = raw@.subrange(ie + 1, ie + 1 + flen as int);
                    assert(raw@[ie as int] == 46);
                    assert(sp_digits_end(raw@, ie + 1) == ie + 1 + flen);
                    assert(ie + 1 + flen == raw@.len());
                    assert(dec_ns_of(raw@) == sgn * (digits_val(intpart) * 1000000000 + frac_ns(
                        full,
                    )));
                }
                assert(magnitude as int == digits_val(intpart) * 1000000000 + frac as int);
                if neg {
                    assert(signed as int == sgn * (digits_val(intpart) * 1000000000
                        + frac as int));
                } else {
                    assert(signed as int == sgn * (digits_val(intpart) * 1000000000
                        + frac as int));
                }
            }
            clamp_i64(signed)
        },
        None => {
            proof {
                let intpart = raw@.subrange(i0 as int, ie as int);
                let sgn: int = if neg {
                    -1
                } else {
                    1
                };
                assert(digits_val(intpart) * 1000000000 >= (u64::MAX + 1) * 1000000000);
                if flen == 0 {
                    assert(dec_ns_of(raw@) == sgn * (digits_val(intpart) * 1000000000));
                } else {
                    let full = raw@.subrange(ie + 1, ie + 1 + flen as int);
                    assert(frac_ns(full) >= 0) by {
                        if full.len() < 9 {
                            assert(digits_val(full) as int * frac_scale(full.len() as int)
                                >= 0) by (nonlinear_arith)
                                requires
                                    frac_scale(full.len() as int) >= 1,
                            ;
                        }
                    }
                    assert(dec_ns_of(raw@) == sgn * (digits_val(intpart) * 1000000000 + frac_ns(
                        full,
                    )));
                }
            }
            if neg {
                i64::MIN
            } else {
                i64::MAX
            }
        },
    }
}

/// Within a run of digits recognised by `sp_digits_end`, every byte is a
/// digit.
proof fn lemma_digits_run(s: Seq<u8>, i: int, q: int)
    requires
        0 <= i,
        i <= q < sp_digits_end(s, i),
    ensures
        is_digit(s[q]),
    decreases q - i,
{
    if q > i {
        lemma_digits_run(s, i + 1, q);
    }
}

/// Nine digits read as less than a thousand million.
proof fn lemma_digits_val_bound(f: Seq<u8>)
    requires
        f.len() <= 9,
        forall|q: int| 0 <= q < f.len() ==> is_digit(#[trigger] f[q]),
    ensures
        digits_val(f) < 1000000000,
    decreases f.len(),
{
    lemma_digits_val_bound_n(f, f.len() as int);
    assert(f.take(f.len() as int) =~= f);
    assert(spec_pow10(f.len() as int) <= 1000000000);
}

/// A digit string of length `n` reads as less than ten to the `n`.
proof fn lemma_digits_val_bound_n(f: Seq<u8>, n: int)
    requires
        0 <= n <= f.len() <= 9,
        forall|q: int| 0 <= q < f.len() ==> is_digit(#[trigger] f[q]),
    ensures
        digits_val(f.take(n)) < spec_pow10(n),
    decreases n,
{
    if n == 0 {
        assert(f.take(0) =~= Seq::<u8>::empty());
    } else {
        let t = f.take(n);
        assert(t.take(n - 1) =~= f.take(n - 1));
        lemma_digits_val_bound_n(f, n - 1);
        assert(is_digit(f[n - 1]));
        assert(digits_val(t) == digits_val(f.take(n - 1)) * 10 + (t[n - 1] - 48) as nat);
        assert(spec_pow10(n) == spec_pow10(n - 1) * 10);
    }
}

/// Ten to the `n`, for small `n`.
pub open spec fn spec_pow10(n: int) -> int {
    if n <= 0 {
        1
    } else if n == 1 {
        10
    } else if n == 2 {
        100
    } else if n == 3 {
        1000
    } else if n == 4 {
        10000
    } else if n == 5 {
        100000
    } else if n == 6 {
        1000000
    } else if n == 7 {
        10000000
    } else if n == 8 {
        100000000
    } else {
        1000000000
    }
}

/// The nanosecond reading of a numeric field value, clamped into `i64`.
fn ns_of_value(v: &Value) -> (r: Option<i64>)
    ensures
        match r {
            Some(x) => ns_of_num(*v) matches Some(y) && x as int == sat_i64(y),
            None => ns_of_num(*v) is None,
        },
{
    match v {
        Value::Int(u) => {
            let wide: i128 = (*u as i128) * 1000000000;
            Some(clamp_i64(wide))
        },
        Value::Num(raw) => Some(parse_dec_ns(raw.as_slice())),
        _ => None,
    }
}

/// All the fields a `Media` needs, with the right types.
pub open spec fn media_fields_ok(v: Value) -> bool {
    &&& str_field(v, "key".spec_bytes()) is Some
    &&& str_field(v, "artist".spec_bytes()) is Some
    &&& str_field(v, "title".spec_bytes()) is Some
    &&& str_field(v, "uploadedByKey".spec_bytes()) is Some
    &&& ns_field(v, "length".spec_bytes()) is Some
}

/// `m` is the `Media` read off `v`.
pub open spec fn is_media_of(m: Media, v: Value) -> bool {
    &&& str_field(v, "key".spec_bytes()) == Some(m.key@)
    &&& str_field(v, "artist".spec_bytes()) == Some(m.artist@)
    &&& str_field(v, "title".spec_bytes()) == Some(m.title@)
    &&& str_field(v, "uploadedByKey".spec_bytes()) == Some(m.uploaded_by@)
    &&& ns_field(v, "length".spec_bytes()) matches Some(x) && m.length_ns as int == sat_i64(x)
}

/// Reads one string field as owned bytes.
fn take_str_field(v: &Value, key: &str) -> (r: Option<Vec<u8>>)
    ensures
        match r {
            Some(b) => str_field(*v, key.spec_bytes()) == Some(b@),
            None => str_field(*v, key.spec_bytes()) is None,
        },
{
    match get_field(v, key) {
        Some(f) => match f {
            Value::Str(s) => Some(bytes_of(s.as_slice())),
            _ => None,
        },
        None => None,
    }
}

impl Media {
    /// Reads a `Media` off its wire object: the key, artist, title and
    /// uploader strings and the numeric length, or nothing when a field is
    /// missing or of the wrong type.
    pub fn from_value(v: &Value) -> (r: Option<Media>)
        ensures
            match r {
                Some(m) => is_media_of(m, *v),
                None => !media_fields_ok(*v),
            },
    {
        let key = match take_str_field(v, "key") {
            Some(b) => b,
            None => {
                return None;
            },
        };
        let artist = match take_str_field(v, "artist") {
            Some(b) => b,
            None => {
                return None;
            },
        };
        let title = match take_str_field(v, "title") {
            Some(b) => b,
            None => {
                return None;
            },
        };
        let uploaded_by = match take_str_field(v, "uploadedByKey") {
            Some(b) => b,
            None => {
                return None;
            },
        };
        let length_ns = match get_field(v, "length") {
            Some(f) => match ns_of_value(f) {
                Some(x) => x,
                None => {
                    return None;
                },
            },
            None => {
                return None;
            },
        };
        Some(Media { key, artist, title, length_ns, uploaded_by })
    }
}

/// The corrected deadline: the server's end time, shifted by the skew
/// between the local clock and the server clock, clamped into `i64`.
pub fn corrected_end_time(end_ns: i64, server_ns: i64, now_ns: i64) -> (r: i64)
    ensures
        r as int == sat_i64(end_ns + (now_ns - server_ns)),
{
    let wide: i128 = end_ns as i128 + (now_ns as i128 - server_ns as i128);
    clamp_i64(wide)
}

/// All the fields a `Playing` needs, with the right types: the media
/// object, a numeric end time, and a numeric server time when one is
/// given at all.
pub open spec fn playing_fields_ok(v: Value) -> bool {
    &&& obj_field(v, "media".spec_bytes()) matches Some(mv) && media_fields_ok(mv)
    &&& ns_field(v, "endTime".spec_bytes()) is Some
    &&& match obj_field(v, "serverTime".spec_bytes()) {
        Some(f) => ns_of_num(f) is Some,
        None => true,
    }
}

/// `p` is the `Playing` read off `v` with local time `now_ns`.
pub open spec fn is_playing_of(p: Playing, v: Value, now_ns: i64) -> bool {
    &&& match str_field(v, "byKey".spec_bytes()) {
        Some(b) => p.requested_by matches Some(rb) && rb@ == b,
        None => p.requested_by is None,
    }
    &&& obj_field(v, "media".spec_bytes()) matches Some(mv) && is_media_of(p.media, mv)
    &&& ns_field(v, "endTime".spec_bytes()) matches Some(e) && ({
        let server = match ns_field(v, "serverTime".spec_bytes()) {
            Some(sv) => sv,
            None => now_ns as int,
        };
        p.end_time_ns as int == sat_i64(sat_i64(e) + (now_ns - sat_i64(server)))
    })
}

impl Playing {
    /// Reads a `Playing` off its wire object, correcting the end time by
    /// the skew between the local clock (`now_ns`) and the server's
    /// reported time; with no server time there is nothing to correct by.
    pub fn from_value(v: &Value, now_ns: i64) -> (r: Option<Playing>)
        ensures
            match r {
                Some(p) => is_playing_of(p, *v, now_ns),
                None => !playing_fields_ok(*v),
            },
    {
        let requested_by = take_str_field(v, "byKey");
        let media = match get_field(v, "media") {
            Some(mv) => match Media::from_value(mv) {
                Some(m) => m,
                None => {
                    return None;
                },
            },
            None => {
                return None;
            },
        };
        let end = match get_field(v, "endTime") {
            Some(f) => match ns_of_value(f) {
                Some(x) => x,
                None => {
                    return None;
                },
            },
            None => {
                return None;
            },
        };
        let server = match get_field(v, "serverTime") {
            Some(f) => match ns_of_value(f) {
                Some(x) => x,
                None => {
                    return None;
                },
            },
            None => now_ns,
        };
        let end_time_ns = corrected_end_time(end, server, now_ns);
        Some(Playing { requested_by, end_time_ns, media })
    }
}

/// All the fields a `Request` needs, with the right types.
pub open spec fn request_fields_ok(v: Value) -> bool {
    &&& int_field(v, "key".spec_bytes()) is Some
    &&& obj_field(v, "media".spec_bytes()) matches Some(mv) && media_fields_ok(mv)
}

/// `r` is the `Request` read off `v`.
pub open spec fn is_request_of(r: Request, v: Value) -> bool {
    &&& match str_field(v, "byKey".spec_bytes()) {
        Some(b) => r.by matches Some(rb) && rb@ == b,
        None => r.by is None,
    }
    &&& int_field(v, "key".spec_bytes()) == Some(r.key)
    &&& obj_field(v, "media".spec_bytes()) matches Some(mv) && is_media_of(r.media, mv)
}

impl Request {
    /// Reads a `Request` off its wire object: who requested it (when
    /// someone did), the queue key, and the media.
    pub fn from_value(v: &Value) -> (r: Option<Request>)
        ensures
            match r {
                Some(rq) => is_request_of(rq, *v),
                None => !request_fields_ok(*v),
            },
    {
        let by = take_str_field(v, "byKey");
        let key = match get_field(v, "key") {
            Some(f) => match f {
                Value::Int(u) => *u,
                _ => {
                    return None;
                },
            },
            None => {
                return None;
            },
        };
        let media = match get_field(v, "media") {
            Some(mv) => match Media::from_value(mv) {
                Some(m) => m,
                None => {
                    return None;
                },
            },
            None => {
                return None;
            },
        };
        Some(Request { by, key, media })
    }
}

} // verus!
