use mac_cleaner::size::human;

fn by_floats(bytes: u64) -> String {
    let units = ["B", "KiB", "MiB", "GiB", "TiB"];
    let mut value = bytes as f64;
    let mut unit = 0;
    while value >= 1024.0 && unit + 1 < units.len() {
        value /= 1024.0;
        unit += 1;
    }
    if unit == 0 {
        format!("{} B", bytes)
    } else {
        format!("{:.1} {}", value, units[unit])
    }
}

#[test]
fn sizes_are_shown_in_the_largest_unit() {
    assert_eq!(human(0), "0 B");
    assert_eq!(human(1023), "1023 B");
    assert_eq!(human(1024), "1.0 KiB");
    assert_eq!(human(1536), "1.5 KiB");
    assert_eq!(human(1 << 20), "1.0 MiB");
    assert_eq!(human(3 << 30), "3.0 GiB");
    assert_eq!(human(5 << 40), "5.0 TiB");
    assert_eq!(human(1 << 50), "1024.0 TiB");
}

#[test]
fn a_half_goes_to_the_even_tenth() {
    assert_eq!(human(1280), "1.2 KiB");
    assert_eq!(human(1792), "1.8 KiB");
}

#[test]
fn just_below_a_unit_the_smaller_one_is_kept() {
    assert_eq!(human((1 << 20) - 1), "1024.0 KiB");
    assert_eq!(human((1 << 30) - 1), "1024.0 MiB");
}

#[test]
fn the_largest_size_is_rounded_to_a_double() {
    assert_eq!(human(u64::MAX), "16777216.0 TiB");
    assert_eq!(human((1 << 53) + 1), by_floats((1 << 53) + 1));
}

#[test]
fn small_and_boundary_sizes_agree_with_floats() {
    for bytes in 0..5000u64 {
        assert_eq!(human(bytes), by_floats(bytes));
    }
    for shift in 0..64u32 {
        let middle = 1u64 << shift;
        for off in 0..70u64 {
            let above = middle.saturating_add(off);
            let below = middle.saturating_sub(off);
            assert_eq!(human(above), by_floats(above), "{above}");
            assert_eq!(human(below), by_floats(below), "{below}");
        }
    }
    for off in 0..2000u64 {
        assert_eq!(human(u64::MAX - off), by_floats(u64::MAX - off));
    }
}

#[test]
fn halves_of_a_tenth_agree_with_floats() {
    for unit in [1u64 << 10, 1 << 20, 1 << 30, 1 << 40] {
        for twentieths in 20..2000u64 {
            let bytes = unit / 20 * twentieths + unit % 20 * twentieths / 20;
            for near in [bytes - 1, bytes, bytes + 1] {
                assert_eq!(human(near), by_floats(near), "{near}");
            }
        }
    }
}

#[test]
fn scattered_sizes_agree_with_floats() {
    let mut state: u64 = 0x9e37_79b9_7f4a_7c15;
    for i in 0..100_000u32 {
        state ^= state << 13;
        state ^= state >> 7;
        state ^= state << 17;
        let bytes = state >> (i % 60);
        assert_eq!(human(bytes), by_floats(bytes), "{bytes}");
    }
}
