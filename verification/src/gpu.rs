//! Choice of the GPU adapter for DirectML: an explicit device override, else the video
//! controller with the most dedicated memory among those the system lists.
use vstd::prelude::*;

use crate::text::str_chars;

verus! {

/// The memory sizes a listing of video controllers gives: one per controller of an array,
/// one for a lone controller object, none for anything else; `None` where a controller has
/// no unsigned `AdapterRAM` number.
#[derive(Debug, Clone)]
pub enum AdapterListing {
    /// An array of controllers.
    Many(Vec<Option<u64>>),
    /// A single controller object.
    One(Option<u64>),
    /// Neither an array nor an object.
    Neither,
}

/// The mathematical content of an `AdapterListing`.
pub enum ListingView {
    /// An array of controllers.
    Many(Seq<Option<u64>>),
    /// A single controller object.
    One(Option<u64>),
    /// Neither an array nor an object.
    Neither,
}

impl View for AdapterListing {
    type V = ListingView;

    open spec fn view(&self) -> ListingView {
        match self {
            AdapterListing::Many(v) => ListingView::Many(v@),
            AdapterListing::One(x) => ListingView::One(*x),
            AdapterListing::Neither => ListingView::Neither,
        }
    }
}

/// The name for what the JSON text `json` lists, read as in `parse_video_controllers`.
pub uninterp spec fn video_controllers(json: Seq<char>) -> Option<ListingView>;

/// Parses `json` with `serde_json::from_str::<serde_json::Value>`; for an array, reads each
/// element's `AdapterRAM` with `Value::get` and `Value::as_u64`, for an object its own. The
/// contract says only that the result is determined by the text: `None` is a parse error.
#[verifier::external_body]
fn parse_video_controllers(json: &str) -> (r: Option<AdapterListing>)
    ensures
        match r {
            Some(l) => video_controllers(json@) == Some(l@),
            None => video_controllers(json@) is None,
        },
{
    let ram = |v: &serde_json::Value| v.get("AdapterRAM").and_then(serde_json::Value::as_u64);
    match serde_json::from_str::<serde_json::Value>(json) {
        Err(_) => None,
        Ok(serde_json::Value::Array(items)) => Some(AdapterListing::Many(items.iter().map(ram).collect())),
        Ok(v @ serde_json::Value::Object(_)) => Some(AdapterListing::One(ram(&v))),
        Ok(_) => Some(AdapterListing::Neither),
    }
}

/// A controller's memory, zero when unknown.
pub open spec fn known_or_zero(x: Option<u64>) -> u64 {
    match x {
        Some(m) => m,
        None => 0,
    }
}

/// The memory sizes of the listed controllers, in order.
pub open spec fn memory_of(l: ListingView) -> Seq<u64> {
    match l {
        ListingView::Many(v) => v.map_values(|x: Option<u64>| known_or_zero(x)),
        ListingView::One(x) => seq![known_or_zero(x)],
        ListingView::Neither => Seq::empty(),
    }
}

/// Bytes in a mebibyte.
pub const MIB: u64 = 1048576u64;

/// The choice when no controller reports memory: device 0 with 1024 MiB.
pub open spec fn fallback_choice() -> (i32, usize) {
    (0i32, 1024usize)
}

/// `b` is the first position of the largest memory size, and that size is not zero.
pub open spec fn first_largest(rams: Seq<u64>, b: int) -> bool {
    &&& 0 <= b < rams.len()
    &&& rams[b] > 0
    &&& forall|j: int| 0 <= j < rams.len() ==> rams[j] <= rams[b]
    &&& forall|j: int| 0 <= j < b ==> rams[j] < rams[b]
}

/// The device and its memory in MiB: the first controller with the most memory, or the
/// fallback when none reports any.
pub open spec fn gpu_choice(rams: Seq<u64>) -> (i32, usize) {
    if exists|b: int| first_largest(rams, b) {
        let b = choose|b: int| first_largest(rams, b);
        (b as i32, (rams[b] / MIB) as usize)
    } else {
        fallback_choice()
    }
}

proof fn lemma_first_largest_unique(rams: Seq<u64>, a: int, b: int)
    requires
        first_largest(rams, a),
        first_largest(rams, b),
    ensures
        a == b,
{
}

/// The memory sizes of a listing, unknown sizes read as zero.
pub fn adapter_memory(listing: &AdapterListing) -> (r: Vec<u64>)
    ensures
        r@ == memory_of(listing@),
{
    match listing {
        AdapterListing::Many(v) => {
            let mut out: Vec<u64> = Vec::new();
            let mut i: usize = 0;
            while i < v.len()
                invariant
                    i <= v.len(),
                    out@ == v@.take(i as int).map_values(|x: Option<u64>| known_or_zero(x)),
                decreases v.len() - i,
            {
                out.push(
                    match v[i] {
                        Some(m) => m,
                        None => 0,
                    },
                );
                i += 1;
                assert(out@ =~= v@.take(i as int).map_values(|x: Option<u64>| known_or_zero(x)));
            }
            assert(v@.take(v.len() as int) =~= v@);
            out
        },
        AdapterListing::One(x) => {
            let mut out: Vec<u64> = Vec::new();
            out.push(
                match x {
                    Some(m) => *m,
                    None => 0,
                },
            );
            assert(out@ =~= seq![known_or_zero(*x)]);
            out
        },
        AdapterListing::Neither => Vec::new(),
    }
}

/// The device to use and its memory in MiB: the first controller with the most memory,
/// or device 0 with 1024 MiB when no controller reports memory.
pub fn best_adapter(rams: &[u64]) -> (r: (i32, usize))
    ensures
        r == gpu_choice(rams@),
{
    let mut best: usize = 0;
    let mut max_ram: u64 = 0;
    let mut i: usize = 0;
    while i < rams.len()
        invariant
            i <= rams.len(),
            max_ram == 0 ==> forall|j: int| 0 <= j < i ==> rams[j] == 0,
            max_ram > 0 ==> best < i && rams[best as int] == max_ram,
            forall|j: int| 0 <= j < i ==> rams[j] <= max_ram,
            forall|j: int| 0 <= j < best ==> rams[j] < max_ram,
        decreases rams.len() - i,
    {
        if rams[i] > max_ram {
            max_ram = rams[i];
            best = i;
        }
        i += 1;
    }
    if max_ram > 0 {
        proof {
            assert(first_largest(rams@, best as int));
            let b = choose|b: int| first_largest(rams@, b);
            lemma_first_largest_unique(rams@, b, best as int);
        }
        (best as i32, (max_ram / MIB) as usize)
    } else {
        proof {
            assert forall|b: int| !first_largest(rams@, b) by {}
        }
        (0, 1024)
    }
}

/// The device and memory chosen from the system's listing of video controllers (`None`
/// when the listing could not be had): the fallback for no listing or text that does not
/// parse, else the choice among the listed controllers' memory sizes.
pub fn detect_gpu(listing_json: Option<&str>) -> (r: (i32, usize))
    ensures
        r == match listing_json {
            None => fallback_choice(),
            Some(j) => match video_controllers(j@) {
                None => fallback_choice(),
                Some(l) => gpu_choice(memory_of(l)),
            },
        },
{
    match listing_json {
        None => (0, 1024),
        Some(j) => match parse_video_controllers(j) {
            None => (0, 1024),
            Some(l) => {
                let rams = adapter_memory(&l);
                best_adapter(rams.as_slice())
            },
        },
    }
}

/// Dedicated memory in MiB of the detected GPU: what detection found, or 1024 MiB when it
/// has not run.
pub fn detect_gpu_vram_mb(detected: Option<(i32, usize)>) -> (r: usize)
    ensures
        r == match detected {
            Some(d) => d.1,
            None => 1024,
        },
{
    match detected {
        Some(d) => d.1,
        None => 1024,
    }
}

/// An ASCII digit.
pub open spec fn is_digit(c: char) -> bool {
    '0' <= c && c <= '9'
}

/// Every character is an ASCII digit.
pub open spec fn all_digits(s: Seq<char>) -> bool {
    forall|i: int| 0 <= i < s.len() ==> is_digit(#[trigger] s[i])
}

/// The value of a string of decimal digits.
pub open spec fn decimal_value(s: Seq<char>) -> int
    decreases s.len(),
{
    if s.len() == 0 {
        0
    } else {
        decimal_value(s.drop_last()) * 10 + (s.last() as int - '0' as int)
    }
}

/// What `str::parse::<i32>` gives: an optional `+` or `-` followed by at least one ASCII
/// digit, whose value lies in the range of `i32`; nothing else.
pub open spec fn parse_i32(s: Seq<char>) -> Option<i32> {
    let signed = s.len() > 0 && (s[0] == '-' || s[0] == '+');
    let body = if signed { s.drop_first() } else { s };
    let v = if s.len() > 0 && s[0] == '-' { -decimal_value(body) } else { decimal_value(body) };
    if body.len() > 0 && all_digits(body) && i32::MIN <= v <= i32::MAX {
        Some(v as i32)
    } else {
        None
    }
}

proof fn lemma_decimal_nonneg(s: Seq<char>)
    requires
        all_digits(s),
    ensures
        decimal_value(s) >= 0,
    decreases s.len(),
{
    if s.len() > 0 {
        assert(is_digit(s[s.len() - 1]));
        assert forall|i: int| 0 <= i < s.drop_last().len() implies is_digit(#[trigger] s.drop_last()[i]) by {
            assert(is_digit(s[i]));
        }
        lemma_decimal_nonneg(s.drop_last());
    }
}

/// A prefix of a digit string is worth no more than the string.
proof fn lemma_decimal_prefix(s: Seq<char>, n: int)
    requires
        all_digits(s),
        0 <= n <= s.len(),
    ensures
        decimal_value(s.take(n)) <= decimal_value(s),
    decreases s.len(),
{
    if n == s.len() {
        assert(s.take(n) =~= s);
    } else {
        let d = s.drop_last();
        assert forall|i: int| 0 <= i < d.len() implies is_digit(#[trigger] d[i]) by {
            assert(is_digit(s[i]));
        }
        lemma_decimal_prefix(d, n);
        assert(d.take(n) =~= s.take(n));
        lemma_decimal_nonneg(d);
        assert(is_digit(s[s.len() - 1]));
    }
}

/// A device ID given as text, read as `str::parse::<i32>` reads it.
pub fn device_override(val: &str) -> (r: Option<i32>)
    ensures
        r == parse_i32(val@),
{
    let cs = str_chars(val);
    let neg = cs.len() > 0 && cs[0] == '-';
    let start: usize = if cs.len() > 0 && (cs[0] == '-' || cs[0] == '+') {
        1
    } else {
        0
    };
    let ghost body = cs@.skip(start as int);
    proof {
        if start == 0 {
            assert(body =~= cs@);
        } else {
            assert(body =~= cs@.drop_first());
        }
    }
    if start == cs.len() {
        return None;
    }
    let mut acc: i64 = 0;
    let mut k: usize = start;
    assert(body.take(0) =~= Seq::<char>::empty());
    while k < cs.len()
        invariant
            start <= k <= cs.len(),
            cs@ == val@,
            body == cs@.skip(start as int),
            body == (if cs@.len() > 0 && (cs@[0] == '-' || cs@[0] == '+') {
                cs@.drop_first()
            } else {
                cs@
            }),
            neg == (cs@.len() > 0 && cs@[0] == '-'),
            body.len() > 0,
            acc == decimal_value(body.take(k - start)),
            all_digits(body.take(k - start)),
            0 <= acc <= 2147483648,
        decreases cs.len() - k,
    {
        let c = cs[k];
        let ghost j = k - start;
        proof {
            assert(body[j] == c);
        }
        if !(c >= '0' && c <= '9') {
            proof {
                assert(!is_digit(body[j]));
                assert(!all_digits(body));
            }
            return None;
        }
        let next: i64 = acc * 10 + ((c as u32) - ('0' as u32)) as i64;
        proof {
            assert(body.take(j + 1).drop_last() =~= body.take(j));
            assert(body.take(j + 1).last() == c);
            assert(next == decimal_value(body.take(j + 1)));
            assert forall|i: int| 0 <= i < j + 1 implies is_digit(#[trigger] body.take(j + 1)[i]) by {
                if i < j {
                    assert(body.take(j + 1)[i] == body.take(j)[i]);
                }
            }
        }
        if next > 2147483648 {
            proof {
                if all_digits(body) {
                    lemma_decimal_prefix(body, j + 1);
                }
            }
            return None;
        }
        acc = next;
        k += 1;
    }
    proof {
        assert(body.take(k - start) =~= body);
    }
    if !neg && acc > 2147483647 {
        return None;
    }
    let v: i64 = if neg {
        -acc
    } else {
        acc
    };
    Some(v as i32)
}

} // verus!
