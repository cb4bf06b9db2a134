use sample_split::splitter::split;
use sample_split::splitter::SplitMode;
use sample_split::threshold::silence_mask;

fn no_silence(n: usize) -> Vec<bool> {
    vec![false; n]
}

#[test]
fn beats_three_of_ten() {
    // length 10 with three beats: lengths [3, 3, 4], covering [0,3) [3,6) [6,10)
    let samples: Vec<i16> = (0..10).collect();
    let out = split(
        &SplitMode::Beats { beats: 3 },
        44100,
        &samples,
        &no_silence(10),
    );
    assert_eq!(out.len(), 3);
    assert_eq!(out[0], vec![0, 1, 2]);
    assert_eq!(out[1], vec![3, 4, 5]);
    assert_eq!(out[2], vec![6, 7, 8, 9]);
}

#[test]
fn beats_lengths_sum_to_input_length() {
    let samples: Vec<u8> = (0..7).collect();
    for beats in 1..=7usize {
        let out = split(
            &SplitMode::Beats { beats },
            8000,
            &samples,
            &no_silence(7),
        );
        assert_eq!(out.len(), beats);
        let total: usize = out.iter().map(|b| b.len()).sum();
        assert_eq!(total, samples.len());
        let mut rebuilt: Vec<u8> = Vec::new();
        for b in &out {
            rebuilt.extend_from_slice(b);
        }
        assert_eq!(rebuilt, samples);
    }
}

#[test]
fn beats_of_empty_buffer() {
    let samples: Vec<i32> = Vec::new();
    let out = split(&SplitMode::Beats { beats: 2 }, 8000, &samples, &[]);
    assert_eq!(out, vec![Vec::<i32>::new(), Vec::<i32>::new()]);
}

#[test]
fn tempo_segment_length_formula() {
    // segment length = rate * 240 / (tempo * note_value) = 1000*240/(120*4) = 500
    let samples: Vec<i16> = vec![1; 1250];
    let mode = SplitMode::Tempo {
        tempo: 120,
        note_value: 4,
        trim_leading_silence: false,
        trim_trailing_silence: false,
    };
    let out = split(&mode, 1000, &samples, &no_silence(1250));
    assert_eq!(
        out.iter().map(|b| b.len()).collect::<Vec<_>>(),
        vec![500, 500, 250]
    );
}

#[test]
fn tempo_chunk_count_is_len_ceil_div_segment() {
    // rate 10, tempo 240, quarter notes: segment length 2400 / 960 = 2
    let mode = SplitMode::Tempo {
        tempo: 240,
        note_value: 4,
        trim_leading_silence: false,
        trim_trailing_silence: false,
    };
    let five: Vec<u8> = vec![9; 5];
    let out = split(&mode, 10, &five, &no_silence(5));
    assert_eq!(
        out.iter().map(|b| b.len()).collect::<Vec<_>>(),
        vec![2, 2, 1]
    );
    // exact multiple: the last chunk is full-sized
    let four: Vec<u8> = vec![9; 4];
    let out = split(&mode, 10, &four, &no_silence(4));
    assert_eq!(out.iter().map(|b| b.len()).collect::<Vec<_>>(), vec![2, 2]);
}

#[test]
fn tempo_trims_leading_and_trailing_silence() {
    let samples: Vec<i16> = vec![0, 0, 5, 6, 0];
    let silence = silence_mask(&samples, 0);
    let mode = SplitMode::Tempo {
        tempo: 60,
        note_value: 4,
        trim_leading_silence: true,
        trim_trailing_silence: true,
    };
    let out = split(&mode, 1000, &samples, &silence);
    assert_eq!(out, vec![vec![5, 6]]);
    // with the flags off, nothing is trimmed
    let mode_off = SplitMode::Tempo {
        tempo: 60,
        note_value: 4,
        trim_leading_silence: false,
        trim_trailing_silence: false,
    };
    let out = split(&mode_off, 1000, &samples, &silence);
    assert_eq!(out, vec![vec![0, 0, 5, 6, 0]]);
}

#[test]
fn tempo_trims_all_silent_to_nothing() {
    let samples: Vec<i16> = vec![0, 0, 0];
    let silence = silence_mask(&samples, 0);
    let mode = SplitMode::Tempo {
        tempo: 60,
        note_value: 4,
        trim_leading_silence: true,
        trim_trailing_silence: false,
    };
    let out = split(&mode, 1000, &samples, &silence);
    assert_eq!(out, Vec::<Vec<i16>>::new());
}

#[test]
fn silence_mode_keeps_sound_regions_only() {
    // 5 silent, 20 loud, 5 silent; the onset is confirmed after 16 loud
    // samples (the fixed hold), so the kept region starts at index 20
    let mut samples: Vec<i16> = Vec::new();
    for i in 0..30 {
        if (5..25).contains(&i) {
            samples.push(100 + i as i16);
        } else {
            samples.push(0);
        }
    }
    let silence = silence_mask(&samples, 0);
    let mode = SplitMode::Silence {
        attack: 0,
        release: 0,
    };
    let out = split(&mode, 1000, &samples, &silence);
    let expected: Vec<i16> = (20..25).map(|i| 100 + i as i16).collect();
    assert_eq!(out, vec![expected]);
}

#[test]
fn silence_mode_attack_release_are_milliseconds() {
    // rate 2000: 3 ms of attack = 6 samples of padding before the onset
    let mut samples: Vec<i16> = vec![0; 20];
    samples.extend(std::iter::repeat(50).take(22));
    let silence = silence_mask(&samples, 0);
    let mode = SplitMode::Silence {
        attack: 3,
        release: 0,
    };
    let out = split(&mode, 2000, &samples, &silence);
    // the 16th loud sample (index 35) confirms the onset; 6 samples of
    // attack padding reach back to index 29; the buffer ends while taking
    assert_eq!(out, vec![vec![50; samples.len() - 29]]);
}
