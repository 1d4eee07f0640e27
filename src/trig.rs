use vstd::prelude::*;

verus! {

/// Fixed-point scale of the trigonometric table: `TRIG_SCALE` stands for 1.
pub const TRIG_SCALE: i64 = 10000;

/// Cosine of `k` whole degrees, for `k` in `0..=90`, times `TRIG_SCALE`, rounded.
#[verifier::opaque]
pub open spec fn cos_quarter(k: int) -> int {
    if k == 0 {
        10000
    } else if k == 1 {
        9998
    } else if k == 2 {
        9994
    } else if k == 3 {
        9986
    } else if k == 4 {
        9976
    } else if k == 5 {
        9962
    } else if k == 6 {
        9945
    } else if k == 7 {
        9925
    } else if k == 8 {
        9903
    } else if k == 9 {
        9877
    } else if k == 10 {
        9848
    } else if k == 11 {
        9816
    } else if k == 12 {
        9781
    } else if k == 13 {
        9744
    } else if k == 14 {
        9703
    } else if k == 15 {
        9659
    } else if k == 16 {
        9613
    } else if k == 17 {
        9563
    } else if k == 18 {
        9511
    } else if k == 19 {
        9455
    } else if k == 20 {
        9397
    } else if k == 21 {
        9336
    } else if k == 22 {
        9272
    } else if k == 23 {
        9205
    } else if k == 24 {
        9135
    } else if k == 25 {
        9063
    } else if k == 26 {
        8988
    } else if k == 27 {
        8910
    } else if k == 28 {
        8829
    } else if k == 29 {
        8746
    } else if k == 30 {
        8660
    } else if k == 31 {
        8572
    } else if k == 32 {
        8480
    } else if k == 33 {
        8387
    } else if k == 34 {
        8290
    } else if k == 35 {
        8192
    } else if k == 36 {
        8090
    } else if k == 37 {
        7986
    } else if k == 38 {
        7880
    } else if k == 39 {
        7771
    } else if k == 40 {
        7660
    } else if k == 41 {
        7547
    } else if k == 42 {
        7431
    } else if k == 43 {
        7314
    } else if k == 44 {
        7193
    } else if k == 45 {
        7071
    } else if k == 46 {
        6947
    } else if k == 47 {
        6820
    } else if k == 48 {
        6691
    } else if k == 49 {
        6561
    } else if k == 50 {
        6428
    } else if k == 51 {
        6293
    } else if k == 52 {
        6157
    } else if k == 53 {
        6018
    } else if k == 54 {
        5878
    } else if k == 55 {
        5736
    } else if k == 56 {
        5592
    } else if k == 57 {
        5446
    } else if k == 58 {
        5299
    } else if k == 59 {
        5150
    } else if k == 60 {
        5000
    } else if k == 61 {
        4848
    } else if k == 62 {
        4695
    } else if k == 63 {
        4540
    } else if k == 64 {
        4384
    } else if k == 65 {
        4226
    } else if k == 66 {
        4067
    } else if k == 67 {
        3907
    } else if k == 68 {
        3746
    } else if k == 69 {
        3584
    } else if k == 70 {
        3420
    } else if k == 71 {
        3256
    } else if k == 72 {
        3090
    } else if k == 73 {
        2924
    } else if k == 74 {
        2756
    } else if k == 75 {
        2588
    } else if k == 76 {
        2419
    } else if k == 77 {
        2250
    } else if k == 78 {
        2079
    } else if k == 79 {
        1908
    } else if k == 80 {
        1736
    } else if k == 81 {
        1564
    } else if k == 82 {
        1392
    } else if k == 83 {
        1219
    } else if k == 84 {
        1045
    } else if k == 85 {
        872
    } else if k == 86 {
        698
    } else if k == 87 {
        523
    } else if k == 88 {
        349
    } else if k == 89 {
        175
    } else if k == 90 {
        0
    } else {
        0
    }
}

/// Executable lookup of `cos_quarter`.
pub fn cos_quarter_exec(k: u32) -> (r: i64)
    requires
        k <= 90,
    ensures
        r == cos_quarter(k as int),
{
    proof {
        reveal(cos_quarter);
    }
    match k {
        0 => 10000,
        1 => 9998,
        2 => 9994,
        3 => 9986,
        4 => 9976,
        5 => 9962,
        6 => 9945,
        7 => 9925,
        8 => 9903,
        9 => 9877,
        10 => 9848,
        11 => 9816,
        12 => 9781,
        13 => 9744,
        14 => 9703,
        15 => 9659,
        16 => 9613,
        17 => 9563,
        18 => 9511,
        19 => 9455,
        20 => 9397,
        21 => 9336,
        22 => 9272,
        23 => 9205,
        24 => 9135,
        25 => 9063,
        26 => 8988,
        27 => 8910,
        28 => 8829,
        29 => 8746,
        30 => 8660,
        31 => 8572,
        32 => 8480,
        33 => 8387,
        34 => 8290,
        35 => 8192,
        36 => 8090,
        37 => 7986,
        38 => 7880,
        39 => 7771,
        40 => 7660,
        41 => 7547,
        42 => 7431,
        43 => 7314,
        44 => 7193,
        45 => 7071,
        46 => 6947,
        47 => 6820,
        48 => 6691,
        49 => 6561,
        50 => 6428,
        51 => 6293,
        52 => 6157,
        53 => 6018,
        54 => 5878,
        55 => 5736,
        56 => 5592,
        57 => 5446,
        58 => 5299,
        59 => 5150,
        60 => 5000,
        61 => 4848,
        62 => 4695,
        63 => 4540,
        64 => 4384,
        65 => 4226,
        66 => 4067,
        67 => 3907,
        68 => 3746,
        69 => 3584,
        70 => 3420,
        71 => 3256,
        72 => 3090,
        73 => 2924,
        74 => 2756,
        75 => 2588,
        76 => 2419,
        77 => 2250,
        78 => 2079,
        79 => 1908,
        80 => 1736,
        81 => 1564,
        82 => 1392,
        83 => 1219,
        84 => 1045,
        85 => 872,
        86 => 698,
        87 => 523,
        88 => 349,
        89 => 175,
        90 => 0,
        _ => 0,
    }
}

/// Every entry of the table lies in `[0, TRIG_SCALE]`.
pub proof fn lemma_cos_quarter_bounds(k: int)
    requires
        0 <= k <= 90,
    ensures
        0 <= cos_quarter(k) <= TRIG_SCALE,
{
    reveal(cos_quarter);
}

/// The table keeps `cos^2 + sin^2` within 12000 of `TRIG_SCALE^2`, and
/// `|cos| + |sin|` at most 14142.
pub proof fn lemma_quarter_pythagoras(k: int)
    requires
        0 <= k <= 90,
    ensures
        -12000 <= cos_quarter(k) * cos_quarter(k) + cos_quarter(90 - k) * cos_quarter(90 - k)
            - TRIG_SCALE * TRIG_SCALE <= 12000,
        cos_quarter(k) + cos_quarter(90 - k) <= 14142,
{
    reveal(cos_quarter);
}

/// Cosine of `d` whole degrees, `d` in `0..360`, times `TRIG_SCALE`.
pub open spec fn cos_deg(d: int) -> int {
    if d <= 90 {
        cos_quarter(d)
    } else if d <= 180 {
        -cos_quarter(180 - d)
    } else if d <= 270 {
        -cos_quarter(d - 180)
    } else {
        cos_quarter(360 - d)
    }
}

/// Sine of `d` whole degrees, `d` in `0..360`, times `TRIG_SCALE`.
pub open spec fn sin_deg(d: int) -> int {
    cos_deg((d + 270) % 360)
}

/// On the whole circle, `cos^2 + sin^2` stays within 12000 of `TRIG_SCALE^2`
/// and `|cos| + |sin|` at most 14142.
pub proof fn lemma_pythagoras(d: int)
    requires
        0 <= d < 360,
    ensures
        -12000 <= cos_deg(d) * cos_deg(d) + sin_deg(d) * sin_deg(d) - TRIG_SCALE * TRIG_SCALE
            <= 12000,
        -14142 <= cos_deg(d) + sin_deg(d) <= 14142,
        -14142 <= cos_deg(d) - sin_deg(d) <= 14142,
{
    let k = if d <= 90 {
        d
    } else if d <= 180 {
        180 - d
    } else if d <= 270 {
        d - 180
    } else {
        360 - d
    };
    lemma_quarter_pythagoras(k);
    lemma_cos_quarter_bounds(k);
    lemma_cos_quarter_bounds(90 - k);
    let c = cos_quarter(k);
    let s = cos_quarter(90 - k);
    assert(s == cos_quarter(90 - k));
    if d <= 90 {
        assert(90 - k == 90 - d);
        assert(cos_deg(d) == c);
        if d == 90 {
            assert(sin_deg(d) == cos_deg(0));
        } else if d == 0 {
            assert(cos_quarter(90) == 0) by {
                reveal(cos_quarter);
            }
            assert(sin_deg(d) == cos_deg(270));
        } else {
            assert(sin_deg(d) == cos_deg(d + 270));
        }
        assert(sin_deg(d) == s);
    } else if d <= 180 {
        assert(90 - k == d - 90);
        assert(cos_deg(d) == -c);
        assert(sin_deg(d) == cos_deg(d - 90));
        assert(sin_deg(d) == s);
    } else if d <= 270 {
        assert(k == d - 180);
        assert(180 - (d - 90) == 90 - k);
        assert(cos_deg(d) == -c);
        assert(sin_deg(d) == cos_deg(d - 90));
        assert(sin_deg(d) == -s);
    } else {
        assert(d - 90 - 180 == 90 - k);
        assert(cos_deg(d) == c);
        assert(sin_deg(d) == cos_deg(d - 90));
        assert(sin_deg(d) == -s);
    }
    assert((-c) * (-c) == c * c) by (nonlinear_arith);
    assert((-s) * (-s) == s * s) by (nonlinear_arith);
}

pub fn cos_deg_exec(d: u32) -> (r: i64)
    requires
        d < 360,
    ensures
        r == cos_deg(d as int),
        -TRIG_SCALE <= r <= TRIG_SCALE,
{
    proof {
        if d <= 90 {
            lemma_cos_quarter_bounds(d as int);
        } else if d <= 180 {
            lemma_cos_quarter_bounds(180 - d);
        } else if d <= 270 {
            lemma_cos_quarter_bounds(d - 180);
        } else {
            lemma_cos_quarter_bounds(360 - d);
        }
    }
    if d <= 90 {
        cos_quarter_exec(d)
    } else if d <= 180 {
        -cos_quarter_exec(180 - d)
    } else if d <= 270 {
        -cos_quarter_exec(d - 180)
    } else {
        cos_quarter_exec(360 - d)
    }
}

pub fn sin_deg_exec(d: u32) -> (r: i64)
    requires
        d < 360,
    ensures
        r == sin_deg(d as int),
        -TRIG_SCALE <= r <= TRIG_SCALE,
{
    cos_deg_exec((d + 270) % 360)
}

} // verus!
