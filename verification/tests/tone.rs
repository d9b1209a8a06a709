use sorting_algorithm_visualizer_rs::tone::{
    tone_frequency_millihz, MAX_FREQ_MILLIHZ, MIN_FREQ_MILLIHZ,
};

#[test]
fn lowest_value_maps_to_400_hz() {
    assert_eq!(tone_frequency_millihz(1, 5), 400_000);
    assert_eq!(tone_frequency_millihz(1, 2), 400_000);
    assert_eq!(tone_frequency_millihz(1, 1920), 400_000);
}

#[test]
fn highest_value_maps_to_1600_hz() {
    assert_eq!(tone_frequency_millihz(5, 5), 1_600_000);
    assert_eq!(tone_frequency_millihz(2, 2), 1_600_000);
    assert_eq!(tone_frequency_millihz(1920, 1920), 1_600_000);
}

#[test]
fn middle_value_maps_linearly() {
    // value 3 of 5: 400 Hz + (2 / 4) * 1200 Hz = 1000 Hz
    assert_eq!(tone_frequency_millihz(3, 5), 1_000_000);
    // value 2 of 4: 400 Hz + (1 / 3) * 1200 Hz = 800 Hz
    assert_eq!(tone_frequency_millihz(2, 4), 800_000);
}

#[test]
fn single_bar_gets_a_fixed_frequency() {
    assert_eq!(tone_frequency_millihz(1, 1), MIN_FREQ_MILLIHZ);
}

#[test]
fn mapping_is_strictly_monotonic_and_bounded() {
    let num_bars = 400usize;
    let mut last = 0u32;
    for v in 1..=400u32 {
        let f = tone_frequency_millihz(v, num_bars);
        assert!(f > last);
        assert!(f >= MIN_FREQ_MILLIHZ && f <= MAX_FREQ_MILLIHZ);
        if v > 1 && (v as usize) < num_bars {
            assert!(f > MIN_FREQ_MILLIHZ && f < MAX_FREQ_MILLIHZ);
        }
        last = f;
    }
}
