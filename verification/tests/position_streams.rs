use pin_core::codec::bytes::Reader;
use pin_core::error::Error;
use pin_core::mutable::phrase_prefix::{advance, Stream};

fn stream(bytes: &[u8], tokens: u32) -> Stream<'_> {
    Stream {
        reader: Reader::new(bytes),
        remaining: 64,
        previous: 0,
        first: false,
        tokens,
        complete: true,
    }
}

#[test]
fn dense_seek_preserves_occurrence_budget_and_target_boundaries() {
    let bytes = [1; 64];
    for target in [1, 31, 32, 33, 63, 64, 65] {
        let mut cursor = stream(&bytes, 65);
        let mut work = 128;
        assert_eq!(
            cursor.seek_ge(target, &mut work).unwrap(),
            (target <= 64).then_some(target)
        );
        assert_eq!(work, 128 - target.min(65) as usize);
    }
    let mut cursor = stream(&bytes, 65);
    let mut work = 31;
    assert_eq!(
        cursor.seek_ge(64, &mut work),
        Err(Error::Limit("prefix position work"))
    );
    assert_eq!(cursor.remaining, 33);
}

#[test]
fn dense_seek_rejects_consumed_bad_deltas_and_token_overflow() {
    for index in 0..64 {
        let mut bytes = [1; 64];
        bytes[index] = 0;
        assert!(stream(&bytes, 65).seek_ge(65, &mut 128).is_err());
        bytes[index] = 128;
        assert!(stream(&bytes, 65).seek_ge(65, &mut 128).is_err());
    }
    assert!(stream(&[1; 64], 32).seek_ge(64, &mut 128).is_err());
    assert!(stream(&[1; 65], 66).seek_ge(65, &mut 128).is_err());
}

#[test]
fn wide_dense_seek_matches_scalar_with_budgets_and_mixed_runs() {
    for seed in 0..8 {
        let bytes: Vec<u8> = (0..1024)
            .map(|i| {
                if seed != 0 && i % (seed * 73) == 0 {
                    2
                } else {
                    1
                }
            })
            .collect();
        for target in [1, 31, 32, 255, 256, 257, 511, 512, 513, 1025, 1100] {
            for budget in [0, 1, 31, 32, 255, 256, 257, 511, 1024, 2048] {
                let mut fast = stream(&bytes, 2048);
                fast.remaining = bytes.len() as u32;
                let mut scalar = fast;
                let (mut fast_work, mut scalar_work) = (budget, budget);
                let actual = fast.seek_ge(target, &mut fast_work);
                let expected = loop {
                    match advance(&mut scalar, &mut scalar_work) {
                        Ok(Some(v)) if v < target => continue,
                        result => break result,
                    }
                };
                assert_eq!(
                    actual, expected,
                    "seed={seed} target={target} budget={budget}"
                );
                assert_eq!(fast_work, scalar_work);
                assert_eq!(fast.remaining, scalar.remaining);
                assert_eq!(fast.previous, scalar.previous);
            }
        }
    }
    for bad in 0..512 {
        let mut bytes = [1; 512];
        bytes[bad] = 0;
        let mut cursor = stream(&bytes, 1024);
        cursor.remaining = 512;
        assert!(cursor.seek_ge(513, &mut 1024).is_err());
    }
}
