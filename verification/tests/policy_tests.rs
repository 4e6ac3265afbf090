use hysteresis::policy::{
    is_8_to_16_or_float_format, normalize_planes, peak_value, ClipInfo, ColorFamily, FilterConfig,
    FormatInfo, HysteresisError, SampleKind,
};

fn int_format(bits: u32, num_planes: u32) -> FormatInfo {
    FormatInfo {
        color_family: ColorFamily::Yuv,
        sample_kind: SampleKind::Integer,
        bits_per_sample: bits,
        num_planes,
    }
}

fn float_format(bits: u32) -> FormatInfo {
    FormatInfo {
        color_family: ColorFamily::Yuv,
        sample_kind: SampleKind::Float,
        bits_per_sample: bits,
        num_planes: 3,
    }
}

fn clip(format: FormatInfo) -> ClipInfo {
    ClipInfo { format, width: 640, height: 480, num_frames: 100 }
}

#[test]
fn peak_value_formulas() {
    assert_eq!(peak_value(&int_format(8, 3)), 255);
    assert_eq!(peak_value(&int_format(10, 3)), 1023);
    assert_eq!(peak_value(&int_format(12, 3)), 4095);
    assert_eq!(peak_value(&int_format(16, 3)), 65535);
    assert_eq!(peak_value(&float_format(32)), 1);
}

#[test]
fn format_accepts_supported() {
    assert!(is_8_to_16_or_float_format(&int_format(8, 3)));
    assert!(is_8_to_16_or_float_format(&int_format(16, 3)));
    assert!(is_8_to_16_or_float_format(&float_format(32)));
}

#[test]
fn format_rejects_17_bit_integer() {
    let f = int_format(17, 3);
    assert!(!is_8_to_16_or_float_format(&f));
    let a = clip(f);
    assert_eq!(
        FilterConfig::create(&a, &a, None).err(),
        Some(HysteresisError::UnsupportedFormat)
    );
}

#[test]
fn format_rejects_non_32_bit_float() {
    let f = float_format(16);
    assert!(!is_8_to_16_or_float_format(&f));
    let a = clip(f);
    assert_eq!(
        FilterConfig::create(&a, &a, None).err(),
        Some(HysteresisError::UnsupportedFormat)
    );
}

#[test]
fn format_rejects_undefined_color_family() {
    let f = FormatInfo {
        color_family: ColorFamily::Undefined,
        sample_kind: SampleKind::Integer,
        bits_per_sample: 8,
        num_planes: 3,
    };
    assert!(!is_8_to_16_or_float_format(&f));
}

#[test]
fn create_rejects_variable_format() {
    let mut a = clip(int_format(8, 3));
    a.width = 0;
    assert_eq!(
        FilterConfig::create(&a, &a, None).err(),
        Some(HysteresisError::UnsupportedFormat)
    );
}

#[test]
fn create_rejects_dimension_mismatch() {
    let a = clip(int_format(8, 3));
    let mut b = a;
    b.height = 240;
    assert_eq!(
        FilterConfig::create(&a, &b, None).err(),
        Some(HysteresisError::FormatMismatch)
    );
}

#[test]
fn create_rejects_format_mismatch() {
    let a = clip(int_format(8, 3));
    let b = clip(int_format(10, 3));
    assert_eq!(
        FilterConfig::create(&a, &b, None).err(),
        Some(HysteresisError::FormatMismatch)
    );
}

#[test]
fn create_accepts_differing_frame_counts() {
    // A differing frame count is no mismatch; it only changes how frames
    // are requested from the second clip.
    let a = clip(int_format(8, 3));
    let mut b = a;
    b.num_frames = 50;
    assert!(FilterConfig::create(&a, &b, None).is_ok());
}

#[test]
fn create_default_processes_all_planes() {
    let a = clip(int_format(8, 3));
    let c = FilterConfig::create(&a, &a, None).unwrap();
    assert_eq!(c.peak, 255);
    assert_eq!(c.process_planes, vec![true, true, true]);
}

#[test]
fn create_empty_list_processes_all_planes() {
    let a = clip(int_format(10, 3));
    let list: Vec<i64> = vec![];
    let c = FilterConfig::create(&a, &a, Some(&list)).unwrap();
    assert_eq!(c.peak, 1023);
    assert_eq!(c.process_planes, vec![true, true, true]);
}

#[test]
fn create_subset_of_planes() {
    let a = clip(int_format(8, 3));
    let list: Vec<i64> = vec![0, 2];
    let c = FilterConfig::create(&a, &a, Some(&list)).unwrap();
    assert_eq!(c.process_planes, vec![true, false, true]);
}

#[test]
fn normalize_rejects_out_of_range_plane() {
    let list: Vec<i64> = vec![3];
    assert_eq!(
        normalize_planes(Some(&list), 3).err(),
        Some(HysteresisError::InvalidArgument)
    );
}

#[test]
fn normalize_rejects_negative_plane() {
    let list: Vec<i64> = vec![-1];
    assert_eq!(
        normalize_planes(Some(&list), 3).err(),
        Some(HysteresisError::InvalidArgument)
    );
}

#[test]
fn normalize_rejects_duplicate_plane() {
    let list: Vec<i64> = vec![1, 1];
    assert_eq!(
        normalize_planes(Some(&list), 3).err(),
        Some(HysteresisError::InvalidArgument)
    );
}

#[test]
fn normalize_single_plane_format() {
    let list: Vec<i64> = vec![0];
    assert_eq!(normalize_planes(Some(&list), 1).unwrap(), vec![true]);
    let bad: Vec<i64> = vec![1];
    assert_eq!(
        normalize_planes(Some(&bad), 1).err(),
        Some(HysteresisError::InvalidArgument)
    );
}
