//! Integer-degree trigonometry.
//!
//! The library measures every angle in whole degrees and represents the
//! trigonometric functions as fixed-point values scaled by `TRIG_ONE`.
//! `cos_table` is the single source of truth: sines are read as
//! `cos(90 - k)`, and `atan2_deg` finds a direction's degree by comparing
//! cross products against the same table, so the arithmetic stays exact
//! and entirely within `i64`.

use vstd::prelude::*;
use vstd::arithmetic::div_mod::lemma_mod_add_multiples_vanish;
use vstd::arithmetic::div_mod::lemma_mod_sub_multiples_vanish;
use vstd::arithmetic::div_mod::lemma_mod_multiples_vanish;
use vstd::arithmetic::div_mod::lemma_fundamental_div_mod;
use vstd::arithmetic::div_mod::lemma_small_mod;
use crate::vector::COORD_LIMIT;
use crate::vector::lemma_mul_bounds;

verus! {

/// Fixed-point scale of the trigonometric tables: `cos 0` is `TRIG_ONE`.
pub const TRIG_ONE: i64 = 1_000_000;

/// An angle reduced into [0, 360): the Euclidean remainder modulo 360.
pub open spec fn norm360(a: int) -> int {
    a % 360
}

/// Reduce an angle in degrees into [0, 360).
pub fn normalize_deg(a: i64) -> (r: i64)
    ensures
        0 <= r < 360,
        r == norm360(a as int),
{
    let mut cur: i64 = a;
    while cur < 0
        invariant
            norm360(cur as int) == norm360(a as int),
        decreases (if cur < 0 { 0 - cur as int } else { 0 }),
    {
        proof {
            lemma_mod_add_multiples_vanish(cur as int, 360);
        }
        cur = cur + 360;
    }
    while cur >= 360
        invariant
            0 <= cur,
            norm360(cur as int) == norm360(a as int),
        decreases cur as int,
    {
        proof {
            lemma_mod_sub_multiples_vanish(cur as int, 360);
            assert(-360 + cur as int == cur as int - 360);
        }
        cur = cur - 360;
    }
    proof {
        lemma_small_mod(cur as nat, 360nat);
    }
    cur
}

/// `cos k`, for a degree `k` in [0, 90], scaled by `TRIG_ONE` and rounded
/// to the nearest integer.
pub open spec fn cos_table(k: int) -> int {
    if k == 0 {
        1000000
    } else if k == 1 {
        999848
    } else if k == 2 {
        999391
    } else if k == 3 {
        998630
    } else if k == 4 {
        997564
    } else if k == 5 {
        996195
    } else if k == 6 {
        994522
    } else if k == 7 {
        992546
    } else if k == 8 {
        990268
    } else if k == 9 {
        987688
    } else if k == 10 {
        984808
    } else if k == 11 {
        981627
    } else if k == 12 {
        978148
    } else if k == 13 {
        974370
    } else if k == 14 {
        970296
    } else if k == 15 {
        965926
    } else if k == 16 {
        961262
    } else if k == 17 {
        956305
    } else if k == 18 {
        951057
    } else if k == 19 {
        945519
    } else if k == 20 {
        939693
    } else if k == 21 {
        933580
    } else if k == 22 {
        927184
    } else if k == 23 {
        920505
    } else if k == 24 {
        913545
    } else if k == 25 {
        906308
    } else if k == 26 {
        898794
    } else if k == 27 {
        891007
    } else if k == 28 {
        882948
    } else if k == 29 {
        874620
    } else if k == 30 {
        866025
    } else if k == 31 {
        857167
    } else if k == 32 {
        848048
    } else if k == 33 {
        838671
    } else if k == 34 {
        829038
    } else if k == 35 {
        819152
    } else if k == 36 {
        809017
    } else if k == 37 {
        798636
    } else if k == 38 {
        788011
    } else if k == 39 {
        777146
    } else if k == 40 {
        766044
    } else if k == 41 {
        754710
    } else if k == 42 {
        743145
    } else if k == 43 {
        731354
    } else if k == 44 {
        719340
    } else if k == 45 {
        707107
    } else if k == 46 {
        694658
    } else if k == 47 {
        681998
    } else if k == 48 {
        669131
    } else if k == 49 {
        656059
    } else if k == 50 {
        642788
    } else if k == 51 {
        629320
    } else if k == 52 {
        615661
    } else if k == 53 {
        601815
    } else if k == 54 {
        587785
    } else if k == 55 {
        573576
    } else if k == 56 {
        559193
    } else if k == 57 {
        544639
    } else if k == 58 {
        529919
    } else if k == 59 {
        515038
    } else if k == 60 {
        500000
    } else if k == 61 {
        484810
    } else if k == 62 {
        469472
    } else if k == 63 {
        453990
    } else if k == 64 {
        438371
    } else if k == 65 {
        422618
    } else if k == 66 {
        406737
    } else if k == 67 {
        390731
    } else if k == 68 {
        374607
    } else if k == 69 {
        358368
    } else if k == 70 {
        342020
    } else if k == 71 {
        325568
    } else if k == 72 {
        309017
    } else if k == 73 {
        292372
    } else if k == 74 {
        275637
    } else if k == 75 {
        258819
    } else if k == 76 {
        241922
    } else if k == 77 {
        224951
    } else if k == 78 {
        207912
    } else if k == 79 {
        190809
    } else if k == 80 {
        173648
    } else if k == 81 {
        156434
    } else if k == 82 {
        139173
    } else if k == 83 {
        121869
    } else if k == 84 {
        104528
    } else if k == 85 {
        87156
    } else if k == 86 {
        69756
    } else if k == 87 {
        52336
    } else if k == 88 {
        34899
    } else if k == 89 {
        17452
    } else if k == 90 {
        0
    } else {
        0
    }
}

/// Every table entry lies within the fixed-point unit.
pub proof fn lemma_cos_table_range(k: int)
    ensures
        0 <= cos_table(k) <= TRIG_ONE as int,
{
}

/// Table lookup for a degree in [0, 90].
pub fn cos_micro(k: u64) -> (r: i64)
    requires
        k <= 90,
    ensures
        r == cos_table(k as int),
        0 <= r <= TRIG_ONE,
{
    match k {
        0 => 1000000,
        1 => 999848,
        2 => 999391,
        3 => 998630,
        4 => 997564,
        5 => 996195,
        6 => 994522,
        7 => 992546,
        8 => 990268,
        9 => 987688,
        10 => 984808,
        11 => 981627,
        12 => 978148,
        13 => 974370,
        14 => 970296,
        15 => 965926,
        16 => 961262,
        17 => 956305,
        18 => 951057,
        19 => 945519,
        20 => 939693,
        21 => 933580,
        22 => 927184,
        23 => 920505,
        24 => 913545,
        25 => 906308,
        26 => 898794,
        27 => 891007,
        28 => 882948,
        29 => 874620,
        30 => 866025,
        31 => 857167,
        32 => 848048,
        33 => 838671,
        34 => 829038,
        35 => 819152,
        36 => 809017,
        37 => 798636,
        38 => 788011,
        39 => 777146,
        40 => 766044,
        41 => 754710,
        42 => 743145,
        43 => 731354,
        44 => 719340,
        45 => 707107,
        46 => 694658,
        47 => 681998,
        48 => 669131,
        49 => 656059,
        50 => 642788,
        51 => 629320,
        52 => 615661,
        53 => 601815,
        54 => 587785,
        55 => 573576,
        56 => 559193,
        57 => 544639,
        58 => 529919,
        59 => 515038,
        60 => 500000,
        61 => 484810,
        62 => 469472,
        63 => 453990,
        64 => 438371,
        65 => 422618,
        66 => 406737,
        67 => 390731,
        68 => 374607,
        69 => 358368,
        70 => 342020,
        71 => 325568,
        72 => 309017,
        73 => 292372,
        74 => 275637,
        75 => 258819,
        76 => 241922,
        77 => 224951,
        78 => 207912,
        79 => 190809,
        80 => 173648,
        81 => 156434,
        82 => 139173,
        83 => 121869,
        84 => 104528,
        85 => 87156,
        86 => 69756,
        87 => 52336,
        88 => 34899,
        89 => 17452,
        90 => 0,
        _ => 0,
    }
}

/// `cos a`, for any angle in degrees, scaled by `TRIG_ONE`: the angle is
/// reduced into [0, 360) and read from the quarter-circle table.
pub open spec fn cos_deg(a: int) -> int {
    let n = norm360(a);
    if n <= 90 {
        cos_table(n)
    } else if n <= 180 {
        -cos_table(180 - n)
    } else if n <= 270 {
        -cos_table(n - 180)
    } else {
        cos_table(360 - n)
    }
}

/// `sin a` is `cos` a quarter turn behind.
pub open spec fn sin_deg(a: int) -> int {
    cos_deg(a - 90)
}

/// Reducing an angle first does not change its cosine.
pub proof fn lemma_cos_norm(a: int)
    ensures
        cos_deg(norm360(a)) == cos_deg(a),
{
    lemma_fundamental_div_mod(a, 360);
    lemma_mod_multiples_vanish(a / 360, a % 360, 360);
    lemma_small_mod((a % 360) as nat, 360nat);
}

/// `cos a`, for any angle in degrees, scaled by `TRIG_ONE`.
pub fn cos_of_deg(a: i64) -> (r: i64)
    ensures
        r == cos_deg(a as int),
        -TRIG_ONE <= r <= TRIG_ONE,
{
    let n = normalize_deg(a);
    proof {
        lemma_cos_norm(a as int);
        lemma_cos_table_range(n as int);
        lemma_cos_table_range(180 - n as int);
        lemma_cos_table_range(n as int - 180);
        lemma_cos_table_range(360 - n as int);
    }
    if n <= 90 {
        cos_micro(n as u64)
    } else if n <= 180 {
        -cos_micro((180 - n) as u64)
    } else if n <= 270 {
        -cos_micro((n - 180) as u64)
    } else {
        cos_micro((360 - n) as u64)
    }
}

/// `sin a`, for any angle in degrees, scaled by `TRIG_ONE`.
pub fn sin_of_deg(a: i64) -> (r: i64)
    ensures
        r == sin_deg(a as int),
        -TRIG_ONE <= r <= TRIG_ONE,
{
    let n = normalize_deg(a);
    proof {
        lemma_cos_norm(a as int);
        // cos_deg(n - 90) == cos_deg(a - 90): both arguments differ from
        // a - 90 by a multiple of 360.
        lemma_fundamental_div_mod(a as int, 360);
        lemma_mod_multiples_vanish(a as int / 360, a as int - 90 - 360 * (a as int / 360), 360);
        assert(norm360(n as int - 90) == norm360(a as int - 90));
        lemma_cos_norm(n as int - 90);
        lemma_cos_norm(a as int - 90);
    }
    cos_of_deg(n - 90)
}

/// Largest whole degree `t` in [k, 45] whose tangent does not exceed
/// `b / a`, scanned upward from `k`; `45` if every boundary passes.
pub open spec fn oct_scan(b: int, a: int, k: int) -> int
    decreases 45 - k,
{
    if k < 0 || k >= 45 {
        45
    } else if a * cos_table(90 - (k + 1)) > b * cos_table(k + 1) {
        k
    } else {
        oct_scan(b, a, k + 1)
    }
}

/// First-octant integer arctangent: the whole degree of the direction
/// `(a, b)` with `0 <= b <= a`.
pub open spec fn oct_deg(b: int, a: int) -> int {
    oct_scan(b, a, 0)
}

pub proof fn lemma_oct_scan_range(b: int, a: int, k: int)
    requires
        0 <= k <= 45,
    ensures
        k <= oct_scan(b, a, k) <= 45,
    decreases 45 - k,
{
    if k < 45 && !(a * cos_table(90 - (k + 1)) > b * cos_table(k + 1)) {
        lemma_oct_scan_range(b, a, k + 1);
    }
}

/// First-octant scan, executable.
fn oct_exec(b: i64, a: i64) -> (r: i64)
    requires
        0 <= b <= a,
        a <= 2 * COORD_LIMIT,
    ensures
        r == oct_deg(b as int, a as int),
        0 <= r <= 45,
{
    let mut k: i64 = 0;
    while k < 45
        invariant
            0 <= k <= 45,
            0 <= b <= a <= 2 * COORD_LIMIT,
            oct_deg(b as int, a as int) == oct_scan(b as int, a as int, k as int),
        decreases 45 - k as int,
    {
        let s: i64 = cos_micro((90 - (k + 1)) as u64);
        let c: i64 = cos_micro((k + 1) as u64);
        proof {
            lemma_mul_bounds(a as int, s as int, 2_000_000_000);
            lemma_mul_bounds(b as int, c as int, 2_000_000_000);
        }
        if a * s > b * c {
            proof {
                lemma_oct_scan_range(b as int, a as int, k as int);
            }
            return k;
        }
        k = k + 1;
    }
    45
}

/// The whole degree, in [0, 360), of the direction from the origin to
/// `(dx, dy)`; `0` for the origin itself.  Quadrants are folded onto the
/// first octant of `oct_deg`.
pub open spec fn atan2_deg_s(dy: int, dx: int) -> int {
    let ax = if dx < 0 { -dx } else { dx };
    let ay = if dy < 0 { -dy } else { dy };
    let base = if ay <= ax { oct_deg(ay, ax) } else { 90 - oct_deg(ax, ay) };
    if dx == 0 && dy == 0 {
        0
    } else if dx >= 0 && dy >= 0 {
        base
    } else if dx < 0 && dy >= 0 {
        180 - base
    } else if dx < 0 {
        180 + base
    } else {
        norm360(360 - base)
    }
}

pub proof fn lemma_atan2_range(dy: int, dx: int)
    ensures
        0 <= atan2_deg_s(dy, dx) < 360,
{
    let ax = if dx < 0 { -dx } else { dx };
    let ay = if dy < 0 { -dy } else { dy };
    if ay <= ax {
        lemma_oct_scan_range(ay, ax, 0);
    } else {
        lemma_oct_scan_range(ax, ay, 0);
    }
    let base = if ay <= ax { oct_deg(ay, ax) } else { 90 - oct_deg(ax, ay) };
    if !(dx == 0 && dy == 0) && dx >= 0 && dy < 0 {
        if base == 0 {
            assert(norm360(360 - base) == 0) by {
                lemma_mod_sub_multiples_vanish(0, 360);
                lemma_small_mod(0nat, 360nat);
            }
        } else {
            lemma_small_mod((360 - base) as nat, 360nat);
        }
    }
}

/// Division by the fixed-point unit, truncating toward zero (as the
/// host's floating-point arithmetic would round a product toward zero
/// when it is cut to a whole coordinate).
pub open spec fn div_trig(a: int) -> int {
    if a >= 0 {
        a / (TRIG_ONE as int)
    } else {
        -((-a) / (TRIG_ONE as int))
    }
}

/// `v * t / TRIG_ONE`: scale a coordinate by a fixed-point trigonometric
/// value, truncating toward zero.
pub fn scale_by_trig(v: i64, t: i64) -> (r: i64)
    requires
        -COORD_LIMIT <= v <= COORD_LIMIT,
        -TRIG_ONE <= t <= TRIG_ONE,
    ensures
        r == div_trig(v as int * t as int),
        -COORD_LIMIT <= r <= COORD_LIMIT,
{
    proof {
        assert(-1_000_000_000_000_000 <= v as int * t as int <= 1_000_000_000_000_000)
            by (nonlinear_arith)
            requires
                -1_000_000_000 <= v <= 1_000_000_000,
                -1_000_000 <= t <= 1_000_000,
        ;
    }
    let prod: i64 = v * t;
    if prod >= 0 {
        proof {
            vstd::arithmetic::div_mod::lemma_div_is_ordered(
                prod as int,
                1_000_000_000_000_000,
                1_000_000,
            );
            vstd::arithmetic::div_mod::lemma_div_pos_is_pos(prod as int, 1_000_000);
        }
        ((prod as u64) / 1_000_000) as i64
    } else {
        proof {
            vstd::arithmetic::div_mod::lemma_div_is_ordered(
                (-prod) as int,
                1_000_000_000_000_000,
                1_000_000,
            );
            vstd::arithmetic::div_mod::lemma_div_pos_is_pos((-prod) as int, 1_000_000);
        }
        -((((-prod) as u64) / 1_000_000) as i64)
    }
}

/// The whole degree, in [0, 360), of the direction from the origin to
/// `(dx, dy)`.
pub fn atan2_deg(dy: i64, dx: i64) -> (r: i64)
    requires
        -2 * COORD_LIMIT <= dy <= 2 * COORD_LIMIT,
        -2 * COORD_LIMIT <= dx <= 2 * COORD_LIMIT,
    ensures
        r == atan2_deg_s(dy as int, dx as int),
        0 <= r < 360,
{
    proof {
        lemma_atan2_range(dy as int, dx as int);
    }
    if dx == 0 && dy == 0 {
        return 0;
    }
    let ax: i64 = if dx < 0 { -dx } else { dx };
    let ay: i64 = if dy < 0 { -dy } else { dy };
    let base: i64 = if ay <= ax { oct_exec(ay, ax) } else { 90 - oct_exec(ax, ay) };
    if dx >= 0 && dy >= 0 {
        base
    } else if dx < 0 && dy >= 0 {
        180 - base
    } else if dx < 0 {
        180 + base
    } else {
        normalize_deg(360 - base)
    }
}

} // verus!
