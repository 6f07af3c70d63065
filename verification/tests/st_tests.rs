use wav_stego::park_miller_prng::ParkMiller;
use wav_stego::st::{st, AMPLITUDE_OFFSET, DEPTH_DENOMINATOR, DEPTH_NUMERATOR};
use wav_stego::utils::{EncryptData, WavFile};

fn modulate(amplitude: f64, chip: i32) -> f64 {
    amplitude + (chip as f64 * 0.0005) * (amplitude + 2.0)
}

fn container(amplitudes: Vec<f64>) -> WavFile<f64> {
    let samples_num = amplitudes.len() as u32;
    WavFile {
        name: "test.wav".to_string(),
        amplitudes,
        bits_per_sample: 16,
        channels: 1,
        sample_rate: 44100,
        samples_num,
    }
}

fn create_test_data() -> (EncryptData<f64>, Vec<i16>) {
    let container = WavFile {
        name: "test.wav".to_string(),
        amplitudes: vec![0.1, 0.2, 0.3, 0.4, 0.5, 0.6, 0.7, 0.8],
        bits_per_sample: 16,
        channels: 1,
        sample_rate: 44100,
        samples_num: 8,
    };

    let message = vec![0b10101010];
    let encrypt_data = EncryptData { container, message };

    let mut generator = ParkMiller::new();
    let psp = generator.generate_prs(8);

    (encrypt_data, psp)
}

#[test]
fn test_st_with_non_empty_message() {
    let (encrypt_data, psp) = create_test_data();
    let bits_per_char = 8;
    let samples_per_msg_bit =
        encrypt_data.container.samples_num as usize / (bits_per_char * encrypt_data.message.len());

    let stego_amplitudes = st(
        &encrypt_data,
        samples_per_msg_bit as usize,
        bits_per_char,
        encrypt_data.message.len(),
        psp,
        modulate,
    );

    assert_eq!(stego_amplitudes.len(), encrypt_data.container.amplitudes.len());

    assert_ne!(stego_amplitudes, encrypt_data.container.amplitudes);

    for i in 0..stego_amplitudes.len() {
        let original_amp = encrypt_data.container.amplitudes[i];
        let stego_amp = stego_amplitudes[i];
        assert_ne!(original_amp, stego_amp);
    }
}

#[test]
fn test_st_with_empty_message() {
    let container = WavFile {
        name: "test.wav".to_string(),
        amplitudes: vec![0.1, 0.2, 0.3, 0.4, 0.5, 0.6, 0.7, 0.8],
        bits_per_sample: 16,
        channels: 1,
        sample_rate: 44100,
        samples_num: 8,
    };

    let message = vec![];
    let encrypt_data = EncryptData { container, message };

    let mut generator = ParkMiller::new();
    let psp = generator.generate_prs(8);

    let bits_per_char = 8;
    let samples_per_msg_bit = encrypt_data.container.samples_num as usize
        / (bits_per_char * encrypt_data.message.len().max(1));

    let stego_amplitudes = st(
        &encrypt_data,
        samples_per_msg_bit as usize,
        bits_per_char,
        encrypt_data.message.len(),
        psp,
        modulate,
    );

    assert_eq!(stego_amplitudes, encrypt_data.container.amplitudes);
}

#[test]
fn st_alternating_byte_exact_amplitudes() {
    let data = EncryptData {
        container: container(vec![0.1, 0.2, 0.3, 0.4, 0.5, 0.6, 0.7, 0.8]),
        message: vec![0b10101010],
    };
    let key = vec![1, -1, 1, -1, 1, -1, 1, -1];
    let stego = st(&data, 1, 8, 1, key, modulate);
    let expected: Vec<f64> = vec![
        0.1 + 0.0005 * (0.1 + 2.0),
        0.2 + -0.0005 * (0.2 + 2.0),
        0.3 + 0.0005 * (0.3 + 2.0),
        0.4 + -0.0005 * (0.4 + 2.0),
        0.5 + 0.0005 * (0.5 + 2.0),
        0.6 + -0.0005 * (0.6 + 2.0),
        0.7 + 0.0005 * (0.7 + 2.0),
        0.8 + -0.0005 * (0.8 + 2.0),
    ];
    assert_eq!(stego, expected);
    assert_eq!(stego[0], 0.10105);
}

fn counts(amplitudes: Vec<i32>) -> WavFile<i32> {
    let samples_num = amplitudes.len() as u32;
    WavFile {
        name: "counts.wav".to_string(),
        amplitudes,
        bits_per_sample: 16,
        channels: 1,
        sample_rate: 44100,
        samples_num,
    }
}

#[test]
fn st_hands_each_sample_its_chip() {
    // Two windows of three samples, two samples left over. The closure
    // puts the chip in the sample's place.
    let data = EncryptData { container: counts(vec![100; 8]), message: vec![0b01000000] };
    let key = vec![1, -1, 7];
    let chips = st(&data, 3, 2, 1, key, |_sample: i32, chip: i32| chip);
    assert_eq!(chips, vec![-1, 1, -7, 1, -1, 7, 100, 100]);
}

#[test]
fn st_windows_past_the_message_are_modulated_as_ones() {
    // Sixteen windows for a one-byte message: the last eight find no bit.
    let data = EncryptData {
        container: counts(vec![0; 16]),
        message: vec![0x00],
    };
    let chips = st(&data, 1, 16, 1, vec![1], |_sample: i32, chip: i32| chip);
    assert_eq!(chips, vec![-1, -1, -1, -1, -1, -1, -1, -1, 1, 1, 1, 1, 1, 1, 1, 1]);
}

#[test]
fn st_reads_message_bits_most_significant_first() {
    let data = EncryptData {
        container: counts(vec![0; 16]),
        message: vec![0x80, 0x01],
    };
    let chips = st(&data, 1, 8, 2, vec![1], |_sample: i32, chip: i32| chip);
    assert_eq!(chips, vec![1, -1, -1, -1, -1, -1, -1, -1, -1, -1, -1, -1, -1, -1, -1, 1]);
}

#[test]
fn st_empty_message_empty_container() {
    let data = EncryptData { container: container(vec![]), message: vec![] };
    let stego = st(&data, 0, 0, 0, vec![], modulate);
    assert_eq!(stego, Vec::<f64>::new());
}

#[test]
fn st_keeps_the_length() {
    let data = EncryptData {
        container: container(vec![0.0; 37]),
        message: vec![b'h', b'i'],
    };
    let stego = st(&data, 2, 8, 2, vec![1, -1], modulate);
    assert_eq!(stego.len(), 37);
    // 32 samples are modulated, five are left as they were
    assert_eq!(&stego[32..], &[0.0; 5]);
    assert!(stego[..32].iter().all(|sample| *sample != 0.0));
}

#[test]
fn depth_is_five_ten_thousandths() {
    assert_eq!(DEPTH_NUMERATOR as f64 / DEPTH_DENOMINATOR as f64, 0.0005);
    assert_eq!(AMPLITUDE_OFFSET as f64, 2.0);
    let by_constants = |amplitude: f64, chip: i32| {
        amplitude
            + (chip as f64 * (DEPTH_NUMERATOR as f64 / DEPTH_DENOMINATOR as f64))
                * (amplitude + AMPLITUDE_OFFSET as f64)
    };
    for amplitude in [-1.0, -0.5, 0.0, 0.1, 0.7, 1.0] {
        for chip in [-1, 1] {
            assert_eq!(by_constants(amplitude, chip), modulate(amplitude, chip));
        }
    }
}
