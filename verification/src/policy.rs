use vstd::prelude::*;

verus! {

/// How one sample of a mask plane is represented.
#[derive(Clone, Copy, PartialEq, Eq, Structural, Debug)]
pub enum SampleKind {
    Integer,
    Float,
}

/// The colour family a clip declares; `Undefined` marks a variable format.
#[derive(Clone, Copy, PartialEq, Eq, Structural, Debug)]
pub enum ColorFamily {
    Undefined,
    Gray,
    Rgb,
    Yuv,
}

/// The sample format shared by every plane of a clip.
#[derive(Clone, Copy, PartialEq, Eq, Structural, Debug)]
pub struct FormatInfo {
    pub color_family: ColorFamily,
    pub sample_kind: SampleKind,
    pub bits_per_sample: u32,
    pub num_planes: u32,
}

/// The per-clip facts the filter validates before any frame is processed.
#[derive(Clone, Copy, PartialEq, Eq, Structural, Debug)]
pub struct ClipInfo {
    pub format: FormatInfo,
    pub width: u32,
    pub height: u32,
    pub num_frames: u32,
}

/// Why a configuration was rejected.
#[derive(Clone, Copy, PartialEq, Eq, Structural, Debug)]
pub enum HysteresisError {
    /// A plane index is out of range or listed twice.
    InvalidArgument,
    /// The precision or colour family lies outside the supported set.
    UnsupportedFormat,
    /// The two clips differ in format or geometry.
    FormatMismatch,
}

/// A format the filter accepts: a defined colour family, and either an
/// integer precision of 8 to 16 bits or exactly 32-bit float.
pub open spec fn spec_format_supported(f: FormatInfo) -> bool {
    &&& f.color_family != ColorFamily::Undefined
    &&& match f.sample_kind {
        SampleKind::Integer => 8 <= f.bits_per_sample <= 16,
        SampleKind::Float => f.bits_per_sample == 32,
    }
}

pub fn is_8_to_16_or_float_format(format: &FormatInfo) -> (r: bool)
    ensures
        r == spec_format_supported(*format),
{
    if format.color_family == ColorFamily::Undefined {
        return false;
    }
    match format.sample_kind {
        SampleKind::Integer => 8 <= format.bits_per_sample && format.bits_per_sample <= 16,
        SampleKind::Float => format.bits_per_sample == 32,
    }
}

/// A clip whose format and dimensions are fixed across all frames.
pub open spec fn spec_constant_format(info: ClipInfo) -> bool {
    &&& info.format.color_family != ColorFamily::Undefined
    &&& info.width > 0
    &&& info.height > 0
}

pub fn is_constant_video_format(info: &ClipInfo) -> (r: bool)
    ensures
        r == spec_constant_format(*info),
{
    info.format.color_family != ColorFamily::Undefined && info.width > 0 && info.height > 0
}

/// The sample value of a fully "on" mask pixel: all sample bits set for
/// integer precisions, and 1 (standing for 1.0) for 32-bit float.
pub open spec fn spec_peak_value(f: FormatInfo) -> int {
    match f.sample_kind {
        SampleKind::Integer => (1u32 << f.bits_per_sample) - 1,
        SampleKind::Float => 1,
    }
}

pub fn peak_value(format: &FormatInfo) -> (r: u32)
    requires
        spec_format_supported(*format),
    ensures
        r == spec_peak_value(*format),
        1 <= r <= 65535,
{
    match format.sample_kind {
        SampleKind::Integer => {
            let bits: u32 = format.bits_per_sample;
            proof {
                assert(256 <= (1u32 << bits) <= 65536) by (bit_vector)
                    requires 8 <= bits <= 16;
            }
            (1u32 << bits) - 1
        },
        SampleKind::Float => 1,
    }
}

/// Whether plane index `i` occurs in the requested list.
pub open spec fn plane_listed(l: Seq<i64>, i: int) -> bool {
    exists|k: int| 0 <= k < l.len() && l[k] == i
}

/// A non-empty plane list is valid when every entry lies in
/// `[0, num_planes)` and no entry repeats.
pub open spec fn planes_valid(l: Seq<i64>, num_planes: int) -> bool {
    &&& forall|k: int| 0 <= k < l.len() ==> 0 <= #[trigger] l[k] < num_planes
    &&& forall|k1: int, k2: int| 0 <= k1 < k2 < l.len() ==> l[k1] != l[k2]
}

/// The plane list as the caller gave it: absent, or a sequence of indices.
pub open spec fn planes_arg_view(planes: Option<&Vec<i64>>) -> Option<Seq<i64>> {
    match planes {
        None => None,
        Some(l) => Some(l@),
    }
}

/// Whether a plane argument is accepted at all.
pub open spec fn planes_arg_ok(l: Option<Seq<i64>>, num_planes: int) -> bool {
    match l {
        None => true,
        Some(s) => planes_valid(s, num_planes),
    }
}

/// The process-plane flags owed for an accepted plane argument: every plane
/// when the list is absent or empty, exactly the listed planes otherwise.
pub open spec fn process_flags_ok(l: Option<Seq<i64>>, num_planes: int, v: Seq<bool>) -> bool {
    &&& v.len() == num_planes
    &&& forall|i: int| 0 <= i < num_planes ==> #[trigger] v[i] == (match l {
        None => true,
        Some(s) => s.len() == 0 || plane_listed(s, i),
    })
}

/// Turns the optional list of requested plane indices into one boolean per
/// plane. An absent or empty list selects every plane; otherwise exactly the
/// listed planes are selected, and an index out of `[0, num_planes)` or
/// listed twice is rejected.
pub fn normalize_planes(planes: Option<&Vec<i64>>, num_planes: usize) -> (r: Result<
    Vec<bool>,
    HysteresisError,
>)
    ensures
        r.is_ok() <==> planes_arg_ok(planes_arg_view(planes), num_planes as int),
        r matches Ok(v) ==> process_flags_ok(planes_arg_view(planes), num_planes as int, v@),
        r matches Err(e) ==> e == HysteresisError::InvalidArgument,
{
    match planes {
        None => Ok(all_planes(num_planes)),
        Some(l) => {
            if l.len() == 0 {
                return Ok(all_planes(num_planes));
            }
            let mut v: Vec<bool> = Vec::new();
            let mut i: usize = 0;
            while i < num_planes
                invariant
                    i <= num_planes,
                    v@.len() == i,
                    forall|j: int| 0 <= j < i ==> !(#[trigger] v@[j]),
                decreases num_planes - i,
            {
                v.push(false);
                i = i + 1;
            }
            let mut k: usize = 0;
            while k < l.len()
                invariant
                    planes_arg_view(planes) == Some(l@),
                    k <= l@.len(),
                    v@.len() == num_planes,
                    forall|k2: int| 0 <= k2 < k ==> 0 <= #[trigger] l@[k2] < num_planes,
                    forall|k1: int, k2: int| 0 <= k1 < k2 < k ==> l@[k1] != l@[k2],
                    forall|i2: int| 0 <= i2 < num_planes ==> #[trigger] v@[i2] == plane_listed(
                        l@.subrange(0, k as int),
                        i2,
                    ),
                decreases l@.len() - k,
            {
                let ghost pre = l@.subrange(0, k as int);
                let p: i64 = l[k];
                if p < 0 || p as u64 >= num_planes as u64 {
                    proof {
                        assert(l@[k as int] == p);
                        assert(!(0 <= l@[k as int] < num_planes as int));
                        assert(!planes_valid(l@, num_planes as int));
                        assert(planes_arg_view(planes) == Some(l@));
                        assert(!planes_arg_ok(planes_arg_view(planes), num_planes as int));
                    }
                    return Err(HysteresisError::InvalidArgument);
                }
                let pu: usize = p as usize;
                assert(pu < num_planes);
                if v[pu] {
                    proof {
                        assert(v@[pu as int]);
                        assert(plane_listed(pre, pu as int));
                        let k1 = choose|k1: int| 0 <= k1 < pre.len() && pre[k1] == pu as int;
                        assert(l@[k1] == pre[k1]);
                        assert(l@[k as int] == pu as int);
                        assert(!planes_valid(l@, num_planes as int));
                        assert(planes_arg_view(planes) == Some(l@));
                        assert(!planes_arg_ok(planes_arg_view(planes), num_planes as int));
                    }
                    return Err(HysteresisError::InvalidArgument);
                }
                proof {
                    assert(!plane_listed(pre, p as int));
                }
                v[pu] = true;
                k = k + 1;
                proof {
                    let post = l@.subrange(0, k as int);
                    assert(post =~= pre.push(l@[k - 1]));
                    assert(post[k as int - 1] == p);
                    assert forall|k1: int| 0 <= k1 < k - 1 implies l@[k1] != p by {
                        assert(pre[k1] == l@[k1]);
                        assert(!plane_listed(pre, p as int));
                    }
                    assert(0 <= l@[k as int - 1] < num_planes as int);
                    assert forall|i2: int| 0 <= i2 < num_planes implies #[trigger] v@[i2]
                        == plane_listed(post, i2) by {
                        if i2 == p as int {
                            assert(post[k as int - 1] == i2);
                        }
                        if plane_listed(post, i2) {
                            let kk = choose|kk: int| 0 <= kk < post.len() && post[kk] == i2;
                            if kk < pre.len() {
                                assert(pre[kk] == i2);
                            }
                        }
                        if plane_listed(pre, i2) {
                            let kk = choose|kk: int| 0 <= kk < pre.len() && pre[kk] == i2;
                            assert(post[kk] == i2);
                        }
                    }
                }
            }
            proof {
                assert(l@.subrange(0, l@.len() as int) =~= l@);
            }
            Ok(v)
        },
    }
}

/// Two clips report the same format and the same dimensions.  A differing
/// frame count is no mismatch: it only changes how frames are requested.
pub open spec fn spec_same_video_info(a: ClipInfo, b: ClipInfo) -> bool {
    &&& a.format == b.format
    &&& a.width == b.width
    &&& a.height == b.height
}

pub fn is_same_video_info(a: &ClipInfo, b: &ClipInfo) -> (r: bool)
    ensures
        r == spec_same_video_info(*a, *b),
{
    a.format == b.format && a.width == b.width && a.height == b.height
}

/// Both construction-time clip checks pass: `a` has a supported constant
/// format and `b` reports the same format and dimensions.
pub open spec fn clips_ok(a: ClipInfo, b: ClipInfo) -> bool {
    &&& spec_constant_format(a)
    &&& spec_format_supported(a.format)
    &&& spec_same_video_info(a, b)
}

/// The immutable per-filter state computed once at construction: the peak
/// sample value and which planes to process.
pub struct FilterConfig {
    /// Peak value as an unsigned integer; `1` stands for 1.0 in float formats.
    pub peak: u32,
    /// Whether the plane at index `i` should be processed.
    pub process_planes: Vec<bool>,
}

impl FilterConfig {
    /// Runs every construction-time check: the first clip must have a
    /// constant, supported format, the second must report identical format
    /// and geometry, and the plane list must be well formed.  No frame is
    /// ever processed under a configuration these checks reject.
    pub fn create(clip_a: &ClipInfo, clip_b: &ClipInfo, planes: Option<&Vec<i64>>) -> (r: Result<
        FilterConfig,
        HysteresisError,
    >)
        ensures
            !(spec_constant_format(*clip_a) && spec_format_supported(clip_a.format)) ==> (
            r matches Err(e) && e == HysteresisError::UnsupportedFormat),
            spec_constant_format(*clip_a) && spec_format_supported(clip_a.format)
                && !spec_same_video_info(*clip_a, *clip_b) ==> (r matches Err(e) && e
                == HysteresisError::FormatMismatch),
            clips_ok(*clip_a, *clip_b) ==> (r.is_ok() <==> planes_arg_ok(
                planes_arg_view(planes),
                clip_a.format.num_planes as int,
            )),
            clips_ok(*clip_a, *clip_b) ==> (r matches Ok(c) ==> c.peak == spec_peak_value(
                clip_a.format,
            ) && process_flags_ok(
                planes_arg_view(planes),
                clip_a.format.num_planes as int,
                c.process_planes@,
            )),
            clips_ok(*clip_a, *clip_b) ==> (r matches Err(e) ==> e
                == HysteresisError::InvalidArgument),
    {
        if !is_constant_video_format(clip_a) || !is_8_to_16_or_float_format(&clip_a.format) {
            return Err(HysteresisError::UnsupportedFormat);
        }
        if !is_same_video_info(clip_a, clip_b) {
            return Err(HysteresisError::FormatMismatch);
        }
        let process_planes = match normalize_planes(planes, clip_a.format.num_planes as usize) {
            Ok(v) => v,
            Err(e) => {
                return Err(e);
            },
        };
        let peak = peak_value(&clip_a.format);
        Ok(FilterConfig { peak, process_planes })
    }
}

/// A process-plane set that selects every plane.
fn all_planes(num_planes: usize) -> (v: Vec<bool>)
    ensures
        v@.len() == num_planes,
        forall|i: int| 0 <= i < num_planes ==> #[trigger] v@[i],
{
    let mut v: Vec<bool> = Vec::new();
    let mut i: usize = 0;
    while i < num_planes
        invariant
            i <= num_planes,
            v@.len() == i,
            forall|j: int| 0 <= j < i ==> #[trigger] v@[j],
        decreases num_planes - i,
    {
        v.push(true);
        i = i + 1;
    }
    v
}

} // verus!
