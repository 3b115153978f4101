use quadres::prime::Prime;
use quadres::prime::QR;
use quadres::QrError;

#[test]
fn test_prime_factorize() {
    assert_eq!(vec![(2, 1)], 2u32.prime_factorize().unwrap());
    assert_eq!(vec![(3, 1)], 3u32.prime_factorize().unwrap());
    assert_eq!(vec![(97, 1)], 97u32.prime_factorize().unwrap());
    assert_eq!(
        vec![(2, 1), (5, 1), (7, 3), (13, 1)],
        44590u32.prime_factorize().unwrap(),
    );
    assert!(0u32.prime_factorize().is_err());
    assert!(1u32.prime_factorize().unwrap().is_empty());
}

#[test]
fn test_qr_p() {
    assert_eq!(vec![1], 2u32.qr_p().unwrap());
    assert_eq!(vec![1], 3u32.qr_p().unwrap());
    assert_eq!(vec![1, 4], 5u32.qr_p().unwrap());
    assert_eq!(vec![1, 2, 4], 7u32.qr_p().unwrap());
    assert_eq!(vec![1, 3, 4, 5, 9], 11u32.qr_p().unwrap());
    assert_eq!(
        vec![
            1, 2, 3, 4, 6, 8, 9, 11, 12, 16, 18, 22, 24, 25, 27, 31, 32, 33, 35, 36, 43, 44,
            47, 48, 49, 50, 53, 54, 61, 62, 64, 65, 66, 70, 72, 73, 75, 79, 81, 85, 86, 88, 89,
            91, 93, 94, 95, 96,
        ],
        97u32.qr_p().unwrap(),
    );
    assert!(0u32.qr_p().is_err());
    assert!(1u32.qr_p().is_err());
    assert!(100u32.qr_p().is_err());
    assert!(4u32.qr_p().is_err());
}

#[test]
fn test_qr_pp() {
    assert_eq!(vec![1], 2u32.qr_odd_pp().unwrap());
    assert_eq!(vec![1], 3u32.qr_odd_pp().unwrap());
    assert_eq!(vec![1, 4], 5u32.qr_odd_pp().unwrap());
    assert_eq!(vec![1, 2, 4], 7u32.qr_odd_pp().unwrap());
    assert_eq!(vec![1, 3, 4, 5, 9], 11u32.qr_odd_pp().unwrap());
    assert_eq!(
        vec![
            1, 2, 3, 4, 6, 8, 9, 11, 12, 16, 18, 22, 24, 25, 27, 31, 32, 33, 35, 36, 43, 44,
            47, 48, 49, 50, 53, 54, 61, 62, 64, 65, 66, 70, 72, 73, 75, 79, 81, 85, 86, 88, 89,
            91, 93, 94, 95, 96,
        ],
        97u32.qr_odd_pp().unwrap(),
    );
    assert!(0u32.qr_odd_pp().is_err());
    assert!(1u32.qr_odd_pp().is_err());
    assert!(100u32.qr_odd_pp().is_err());
    assert_eq!(vec![1, 4, 7], 9u32.qr_odd_pp().unwrap());
    assert_eq!(
        vec![
            1, 2, 3, 4, 6, 8, 9, 12, 13, 16, 18, 24, 25, 26, 27, 29, 31, 32, 35, 36, 39, 41,
            47, 48, 49, 50, 52, 54, 55, 58, 59, 62, 64, 70, 71, 72, 73, 75, 77, 78, 81, 82, 85,
            87, 93, 94, 95, 96, 98, 100, 101, 104, 105, 108, 110, 116, 117, 118, 119, 121, 123,
            124, 127, 128, 131, 133, 139, 140, 141, 142, 144, 146, 147, 150, 151, 154, 156,
            162, 163, 164, 165, 167, 169, 170, 173, 174, 177, 179, 185, 186, 187, 188, 190,
            192, 193, 196, 197, 200, 202, 208, 209, 210, 211, 213, 215, 216, 219, 220, 223,
            225, 231, 232, 233, 234, 236, 238, 239, 242, 243, 246, 248, 254, 255, 256, 257,
            259, 261, 262, 265, 266, 269, 271, 277, 278, 279, 280, 282, 284, 285, 288, 289,
            292, 294, 300, 301, 302, 303, 305, 307, 308, 311, 312, 315, 317, 323, 324, 325,
            326, 328, 330, 331, 334, 335, 338, 340, 346, 347, 348, 349, 351, 353, 354, 357,
            358, 361, 363, 369, 370, 371, 372, 374, 376, 377, 380, 381, 384, 386, 392, 393,
            394, 395, 397, 399, 400, 403, 404, 407, 409, 415, 416, 417, 418, 420, 422, 423,
            426, 427, 430, 432, 438, 439, 440, 441, 443, 445, 446, 449, 450, 453, 455, 461,
            462, 463, 464, 466, 468, 469, 472, 473, 476, 478, 484, 485, 486, 487, 489, 491,
            492, 495, 496, 499, 501, 507, 508, 509, 510, 512, 514, 515, 518, 519, 522, 524,
        ],
        529u32.qr_odd_pp().unwrap(), // 529 = 23 * 23
    );
}

#[test]
fn test_qr_2pow() {
    assert_eq!(vec![1], 2u32.qr_2pow().unwrap());
    assert_eq!(vec![1], 4u32.qr_2pow().unwrap());
    assert_eq!(vec![1, 4], 8u32.qr_2pow().unwrap());
    assert_eq!(vec![1, 4, 9], 16u32.qr_2pow().unwrap());
    assert_eq!(vec![1, 4, 9, 16, 17, 25], 32u32.qr_2pow().unwrap());
    assert_eq!(
        vec![1, 4, 9, 16, 17, 25, 33, 36, 41, 49, 57],
        64u32.qr_2pow().unwrap(),
    );
    assert_eq!(
        vec![
            1, 4, 9, 16, 17, 25, 33, 36, 41, 49, 57, 64, 65, 68, 73, 81, 89, 97, 100, 105, 113,
            121,
        ],
        128u32.qr_2pow().unwrap(),
    );
    assert_eq!(
        vec![
            1, 4, 9, 16, 17, 25, 33, 36, 41, 49, 57, 64, 65, 68, 73, 81, 89, 97, 100, 105, 113,
            121, 129, 132, 137, 144, 145, 153, 161, 164, 169, 177, 185, 193, 196, 201, 209,
            217, 225, 228, 233, 241, 249,
        ],
        256u32.qr_2pow().unwrap(),
    );
    assert_eq!(
        vec![
            1, 4, 9, 16, 17, 25, 33, 36, 41, 49, 57, 64, 65, 68, 73, 81, 89, 97, 100, 105, 113,
            121, 129, 132, 137, 144, 145, 153, 161, 164, 169, 177, 185, 193, 196, 201, 209,
            217, 225, 228, 233, 241, 249, 256, 257, 260, 265, 272, 273, 281, 289, 292, 297,
            305, 313, 321, 324, 329, 337, 345, 353, 356, 361, 369, 377, 385, 388, 393, 400,
            401, 409, 417, 420, 425, 433, 441, 449, 452, 457, 465, 473, 481, 484, 489, 497,
            505,
        ],
        512u32.qr_2pow().unwrap(),
    );
    assert_eq!(
        vec![
            1, 4, 9, 16, 17, 25, 33, 36, 41, 49, 57, 64, 65, 68, 73, 81, 89, 97, 100, 105, 113,
            121, 129, 132, 137, 144, 145, 153, 161, 164, 169, 177, 185, 193, 196, 201, 209,
            217, 225, 228, 233, 241, 249, 256, 257, 260, 265, 272, 273, 281, 289, 292, 297,
            305, 313, 321, 324, 329, 337, 345, 353, 356, 361, 369, 377, 385, 388, 393, 400,
            401, 409, 417, 420, 425, 433, 441, 449, 452, 457, 465, 473, 481, 484, 489, 497,
            505, 513, 516, 521, 528, 529, 537, 545, 548, 553, 561, 569, 576, 577, 580, 585,
            593, 601, 609, 612, 617, 625, 633, 641, 644, 649, 656, 657, 665, 673, 676, 681,
            689, 697, 705, 708, 713, 721, 729, 737, 740, 745, 753, 761, 769, 772, 777, 784,
            785, 793, 801, 804, 809, 817, 825, 833, 836, 841, 849, 857, 865, 868, 873, 881,
            889, 897, 900, 905, 912, 913, 921, 929, 932, 937, 945, 953, 961, 964, 969, 977,
            985, 993, 996, 1001, 1009, 1017,
        ],
        1024u32.qr_2pow().unwrap(),
    );
}

#[test]
fn test_mod_pow_edges() {
    for b in [0u32, 1, 2, 7, 100, 65535] {
        assert_eq!(Ok(1), b.mod_pow(0, 5));
    }
    assert_eq!(Ok(0), 0u32.mod_pow(3, 5));
    assert_eq!(Ok(0), 0u32.mod_pow(1, 2));
    assert_eq!(Ok(0), 7u32.mod_pow(9, 1));
    assert_eq!(Ok(0), 0u32.mod_pow(0, 1));
    assert_eq!(Err(QrError::InvalidModulus), 3u32.mod_pow(4, 0));
}

#[test]
fn test_mod_pow_values() {
    assert_eq!(Ok(5), 3u32.mod_pow(5, 7));
    assert_eq!(Ok(1), 2u32.mod_pow(10, 1023));
    assert_eq!(Ok(4), 2u32.mod_pow(2, 100));
    assert_eq!(Ok(1), 10u32.mod_pow(96, 97));
}

#[test]
fn test_number_utilities() {
    assert!(2u32.is_prime());
    assert!(97u32.is_prime());
    assert!(!0u32.is_prime());
    assert!(!1u32.is_prime());
    assert!(!91u32.is_prime());
    assert!(4294967291u32.is_prime());
    assert!(0u32.is_square());
    assert!(1u32.is_square());
    assert!(144u32.is_square());
    assert!(!2u32.is_square());
    assert!(!143u32.is_square());
    assert_eq!(0, 0u32.floor_sqrt());
    assert_eq!(1, 3u32.floor_sqrt());
    assert_eq!(2, 4u32.floor_sqrt());
    assert_eq!(9, 96u32.floor_sqrt());
    assert_eq!(10, 100u32.floor_sqrt());
    assert_eq!(65535, 4294967295u32.floor_sqrt());
}

#[test]
fn test_error_variants() {
    assert_eq!(Err(QrError::InvalidInput), 0u32.qr_pp());
    assert_eq!(Err(QrError::InvalidInput), 0u32.qr_2pow());
    assert_eq!(Err(QrError::NotPrime), 4u32.qr_p());
    assert_eq!(Err(QrError::NotPrimePower), 12u32.qr_pp());
    assert_eq!(Err(QrError::NotPrimePower), 1u32.qr_pp());
    assert_eq!(Err(QrError::NotPowerOfTwo), 9u32.qr_2pow());
}

#[test]
fn test_fast_ord_matches_enumeration_on_odd_prime_powers() {
    for n in [3u32, 5, 7, 9, 11, 25, 27, 49, 81, 121, 125, 243, 343, 529, 625, 2187] {
        let len = n.qr_pp().unwrap().len() as u32;
        assert_eq!(len, n.fast_ord_qr_pp().unwrap());
        assert_eq!(len, n.fast_ord_qr_pp_v2().unwrap());
    }
}

#[test]
fn test_fast_ord_matches_enumeration_on_powers_of_two() {
    for n in [
        2u32, 4, 8, 16, 32, 64, 128, 256, 512, 1024, 2048, 4096, 8192, 16384, 32768, 65536,
    ] {
        let len = n.qr_2pow().unwrap().len() as u32;
        assert_eq!(len, n.qr_pp().unwrap().len() as u32);
        assert_eq!(len, n.fast_ord_qr_pp().unwrap());
        assert_eq!(len, n.fast_ord_qr_pp_v2().unwrap());
    }
}

#[test]
fn test_fast_ord_variants_agree() {
    for n in [2u32, 3, 4, 8, 9, 16, 25, 27, 32, 49, 64, 125, 128, 243, 343, 529, 1024] {
        assert_eq!(n.fast_ord_qr_pp().unwrap(), n.fast_ord_qr_pp_v2().unwrap());
    }
}

#[test]
fn test_qr_p_starts_at_one_and_ascends() {
    for p in [2u32, 3, 5, 7, 11, 13, 17, 97, 101] {
        let qr = p.qr_p().unwrap();
        assert_eq!(1, qr[0]);
        let expected = if p == 2 { 1 } else { ((p - 1) / 2) as usize };
        assert_eq!(expected, qr.len());
        for w in qr.windows(2) {
            assert!(w[0] < w[1]);
        }
    }
}

#[test]
fn test_prime_factorize_round_trip() {
    for n in [1u32, 2, 12, 97, 360, 44590, 65536, 1000000, 4294967295] {
        let product = n
            .prime_factorize()
            .unwrap()
            .into_iter()
            .fold(1u64, |acc, (p, e)| acc * (p as u64).pow(e));
        assert_eq!(n as u64, product);
    }
}

#[test]
fn test_builders_idempotent() {
    assert_eq!(27u32.qr_pp(), 27u32.qr_pp());
    assert_eq!(32u32.qr_2pow(), 32u32.qr_2pow());
    assert_eq!(97u32.qr_p(), 97u32.qr_p());
    assert_eq!(125u32.qr_odd_pp(), 125u32.qr_odd_pp());
    assert_eq!(729u32.fast_ord_qr_pp(), 729u32.fast_ord_qr_pp());
    assert_eq!(729u32.fast_ord_qr_pp_v2(), 729u32.fast_ord_qr_pp_v2());
}
