//! Planning how much of a llama.cpp model to place on the GPU: layer
//! counting, per-unit weight costs, memory budgets, context sizing and the
//! split of layers across several devices.
use vstd::prelude::*;

use crate::text::{ascii_lower_chars, ascii_lower_seq, chars_eq_str, str_chars, trim_chars, trim_spec};

verus! {

// ---------------------------------------------------------------------------
// Integer helpers
// ---------------------------------------------------------------------------

pub open spec fn imin(a: int, b: int) -> int {
    if a < b {
        a
    } else {
        b
    }
}

pub open spec fn imax(a: int, b: int) -> int {
    if a < b {
        b
    } else {
        a
    }
}

/// Saturation at `u64::MAX`.
pub open spec fn sat64(x: int) -> int {
    if x > u64::MAX {
        u64::MAX as int
    } else {
        x
    }
}

/// Saturation at `u32::MAX`.
pub open spec fn sat32(x: int) -> int {
    if x > u32::MAX {
        u32::MAX as int
    } else {
        x
    }
}

/// Subtraction floored at zero (`saturating_sub` on unsigned integers).
pub open spec fn monus(a: int, b: int) -> int {
    if a < b {
        0
    } else {
        a - b
    }
}

pub fn sat_mul_u64(a: u64, b: u64) -> (r: u64)
    ensures
        r == sat64(a * b),
{
    match a.checked_mul(b) {
        Some(v) => v,
        None => u64::MAX,
    }
}

pub fn sat_mul_u32(a: u32, b: u32) -> (r: u32)
    ensures
        r == sat32(a * b),
{
    match a.checked_mul(b) {
        Some(v) => v,
        None => u32::MAX,
    }
}

pub fn min_u32(a: u32, b: u32) -> (r: u32)
    ensures
        r == imin(a as int, b as int),
{
    if a < b {
        a
    } else {
        b
    }
}

pub fn max_u32(a: u32, b: u32) -> (r: u32)
    ensures
        r == imax(a as int, b as int),
{
    if a < b {
        b
    } else {
        a
    }
}

pub fn min_u64(a: u64, b: u64) -> (r: u64)
    ensures
        r == imin(a as int, b as int),
{
    if a < b {
        a
    } else {
        b
    }
}

pub fn max_u64(a: u64, b: u64) -> (r: u64)
    ensures
        r == imax(a as int, b as int),
{
    if a < b {
        b
    } else {
        a
    }
}

/// `u32::try_from(x).unwrap_or(default)`.
pub fn u64_to_u32_or(x: u64, default: u32) -> (r: u32)
    ensures
        r == (if x <= u32::MAX {
            x as int
        } else {
            default as int
        }),
{
    if x <= u32::MAX as u64 {
        x as u32
    } else {
        default
    }
}

// ---------------------------------------------------------------------------
// Model metadata
// ---------------------------------------------------------------------------

/// What the planner needs to know about a model file.
#[derive(Clone, Copy, Debug)]
pub struct LlamaModelMetadata {
    pub model_size_bytes: u64,
    pub layer_count: u32,
    pub nextn_layer_count: u32,
    pub max_context_length: u32,
    pub n_embd: u64,
    pub n_head: u64,
    pub n_head_kv: u64,
}

/// Repeating blocks: at least one, plus the bundled next-token blocks.
pub open spec fn model_layer_count_spec(m: LlamaModelMetadata) -> int {
    sat32(imax(m.layer_count as int, 1) + m.nextn_layer_count)
}

/// Offload units: the blocks plus the output layer.
pub open spec fn offload_layer_count_spec(m: LlamaModelMetadata) -> int {
    sat32(model_layer_count_spec(m) + 1)
}

pub open spec fn normalize_requested_spec(m: LlamaModelMetadata, requested: int) -> int {
    if requested >= imax(m.layer_count as int, 1) {
        offload_layer_count_spec(m)
    } else {
        requested
    }
}

impl LlamaModelMetadata {
    pub fn model_layer_count(&self) -> (r: u32)
        ensures
            r == model_layer_count_spec(*self),
    {
        max_u32(self.layer_count, 1).saturating_add(self.nextn_layer_count)
    }

    pub fn offload_layer_count(&self) -> (r: u32)
        ensures
            r == offload_layer_count_spec(*self),
    {
        self.model_layer_count().saturating_add(1)
    }

    /// A request for every repeating layer (or more) means the whole model,
    /// output layer and bundled blocks included.
    pub fn normalize_requested_gpu_layers(&self, requested: u32) -> (r: u32)
        ensures
            r == normalize_requested_spec(*self, requested as int),
    {
        if requested >= max_u32(self.layer_count, 1) {
            self.offload_layer_count()
        } else {
            requested
        }
    }
}

/// Normalising a request never asks for more than the whole model, and
/// normalising twice changes nothing.
pub proof fn law_normalize_requested_layers(m: LlamaModelMetadata, requested: u32)
    ensures
        normalize_requested_spec(m, requested as int) <= offload_layer_count_spec(m),
        normalize_requested_spec(m, normalize_requested_spec(m, requested as int))
            == normalize_requested_spec(m, requested as int),
{
}

// ---------------------------------------------------------------------------
// Per-unit offload costs
// ---------------------------------------------------------------------------

/// Sum of a sequence of byte counts.
pub open spec fn seq_sum(s: Seq<u64>) -> int
    decreases s.len(),
{
    if s.len() == 0 {
        0
    } else {
        seq_sum(s.drop_last()) + s.last()
    }
}

/// Byte cost of every llama.cpp offload unit, indexed the way llama.cpp
/// indexes them: the repeating blocks, then the output layer last.
/// `n_gpu_layers` always takes the *last* units of that list, output layer
/// first. The input embedding stays on the CPU and is not a unit.
#[derive(Clone, Debug)]
pub struct ModelOffloadCosts {
    unit_bytes: Vec<u64>,
}

/// Cost of putting the last `n` units on the GPU with `kv` bytes of KV cache
/// charged for each of the first `kv_count` block units among them (the
/// output unit carries no KV).
pub open spec fn units_cost(units: Seq<u64>, n: int, kv: int, kv_count: int) -> int
    decreases n,
{
    if n <= 0 {
        0
    } else {
        units_cost(units, n - 1, kv, kv_count) + units[units.len() - n] + (if n >= 2 && n - 1
            <= kv_count {
            kv
        } else {
            0
        })
    }
}

/// The number of last units that fit: units are added while the cost,
/// saturated at `u64::MAX`, stays within `budget`.
pub open spec fn fitted_units_from(units: Seq<u64>, budget: int, kv: int, kv_count: int, n: int) -> int
    decreases units.len() - n,
{
    if n >= units.len() || sat64(units_cost(units, n + 1, kv, kv_count)) > budget {
        n
    } else {
        fitted_units_from(units, budget, kv, kv_count, n + 1)
    }
}

impl View for ModelOffloadCosts {
    type V = Seq<u64>;

    closed spec fn view(&self) -> Seq<u64> {
        self.unit_bytes@
    }
}

proof fn lemma_seq_sum_skip_step(s: Seq<u64>, k: int)
    requires
        0 < k <= s.len(),
    ensures
        seq_sum(s.skip(s.len() - k)) == seq_sum(s.skip(s.len() - (k - 1))) + s[s.len() - k],
    decreases k,
{
    let a = s.skip(s.len() - k);
    let b = s.skip(s.len() - (k - 1));
    if k == 1 {
        assert(a.drop_last() =~= b);
    } else {
        assert(a.drop_last() =~= s.drop_last().skip(s.len() - 1 - (k - 1)));
        assert(b.drop_last() =~= s.drop_last().skip(s.len() - 1 - (k - 2)));
        lemma_seq_sum_skip_step(s.drop_last(), k - 1);
        assert(s.drop_last()[s.len() - 1 - (k - 1)] == s[s.len() - k]);
        assert(a.last() == b.last());
    }
}

proof fn lemma_units_cost_nonneg(units: Seq<u64>, n: int, kv: int, kv_count: int)
    requires
        kv >= 0,
    ensures
        units_cost(units, n, kv, kv_count) >= 0,
    decreases n,
{
    if n > 0 {
        lemma_units_cost_nonneg(units, n - 1, kv, kv_count);
    }
}

proof fn lemma_units_cost_monotone(units: Seq<u64>, a: int, b: int, kv: int, kv_count: int)
    requires
        0 <= a <= b <= units.len(),
        kv >= 0,
    ensures
        units_cost(units, a, kv, kv_count) <= units_cost(units, b, kv, kv_count),
    decreases b - a,
{
    if a < b {
        lemma_units_cost_monotone(units, a, b - 1, kv, kv_count);
    }
}

proof fn lemma_fitted_facts(units: Seq<u64>, budget: int, kv: int, kv_count: int, n: int)
    requires
        0 <= n <= units.len(),
        kv >= 0,
        sat64(units_cost(units, n, kv, kv_count)) <= budget,
    ensures
        n <= fitted_units_from(units, budget, kv, kv_count, n) <= units.len(),
        sat64(units_cost(units, fitted_units_from(units, budget, kv, kv_count, n), kv, kv_count))
            <= budget,
        fitted_units_from(units, budget, kv, kv_count, n) < units.len() ==> sat64(
            units_cost(units, fitted_units_from(units, budget, kv, kv_count, n) + 1, kv, kv_count),
        ) > budget,
    decreases units.len() - n,
{
    if !(n >= units.len() || sat64(units_cost(units, n + 1, kv, kv_count)) > budget) {
        lemma_fitted_facts(units, budget, kv, kv_count, n + 1);
    }
}

/// The unit count `max_units_within` reports is the largest whose cost
/// (saturated at `u64::MAX`) fits the budget: that many last units fit, and
/// no larger count does.
pub proof fn law_max_units_is_largest_fit(
    units: Seq<u64>,
    budget: u64,
    kv_bytes_per_layer: u64,
    kv_layer_count: u32,
)
    ensures
        ({
            let kv = kv_bytes_per_layer as int;
            let kc = kv_layer_count as int;
            let f = fitted_units_from(units, budget as int, kv, kc, 0);
            &&& 0 <= f <= units.len()
            &&& forall|n: int| 0 <= n <= f ==> sat64(units_cost(units, n, kv, kc)) <= budget
            &&& forall|n: int| f < n <= units.len() ==> sat64(units_cost(units, n, kv, kc)) > budget
        }),
{
    let kv = kv_bytes_per_layer as int;
    let kc = kv_layer_count as int;
    lemma_fitted_facts(units, budget as int, kv, kc, 0);
    let f = fitted_units_from(units, budget as int, kv, kc, 0);
    assert forall|n: int| 0 <= n <= f implies sat64(units_cost(units, n, kv, kc)) <= budget by {
        lemma_units_cost_monotone(units, n, f, kv, kc);
    }
    assert forall|n: int| f < n <= units.len() implies sat64(units_cost(units, n, kv, kc)) > budget by {
        lemma_units_cost_monotone(units, f + 1, n, kv, kc);
    }
}

impl ModelOffloadCosts {
    pub fn from_unit_bytes(unit_bytes: Vec<u64>) -> (r: Self)
        ensures
            r@ == unit_bytes@,
    {
        ModelOffloadCosts { unit_bytes }
    }

    /// Number of offload units, equal to llama.cpp's `n_layer_all + 1`.
    pub fn unit_count(&self) -> (r: u32)
        ensures
            r == sat32(self@.len() as int),
    {
        let n = self.unit_bytes.len();
        if n <= u32::MAX as usize {
            n as u32
        } else {
            u32::MAX
        }
    }

    /// Weight bytes that land on the GPU for `gpu_layers`, i.e. the last
    /// `gpu_layers` units.
    pub fn gpu_bytes(&self, gpu_layers: u32) -> (r: u64)
        ensures
            r == gpu_bytes_spec(self@, gpu_layers as int),
    {
        let n = self.unit_bytes.len();
        let take: usize = if (gpu_layers as usize) < n {
            gpu_layers as usize
        } else {
            n
        };
        let ghost s = self.unit_bytes@;
        let mut acc: u64 = 0;
        let mut k: usize = 0;
        while k < take
            invariant
                take <= n,
                n == s.len(),
                s == self.unit_bytes@,
                k <= take,
                acc == sat64(seq_sum(s.skip(n - k))),
            decreases take - k,
        {
            proof {
                lemma_seq_sum_skip_step(s, k + 1);
            }
            acc = acc.saturating_add(self.unit_bytes[n - 1 - k]);
            k += 1;
        }
        acc
    }

    /// Largest `gpu_layers` whose weights plus per-block KV fit in `budget`.
    ///
    /// `kv_bytes_per_layer` is charged only for block units, and only for the
    /// first `kv_layer_count` of them, because the KV cache is sized from the
    /// attention layers rather than from the offload unit list.
    pub fn max_units_within(&self, budget: u64, kv_bytes_per_layer: u64, kv_layer_count: u32) -> (r:
        u32)
        ensures
            r == sat32(
                fitted_units_from(
                    self@,
                    budget as int,
                    kv_bytes_per_layer as int,
                    kv_layer_count as int,
                    0,
                ),
            ),
    {
        let ghost s = self.unit_bytes@;
        let ghost kv = kv_bytes_per_layer as int;
        let ghost kc = kv_layer_count as int;
        let n = self.unit_bytes.len();
        let mut running: u64 = 0;
        let mut kv_charged: u32 = 0;
        let mut fitted: u32 = 0;
        let mut offset: usize = 0;
        while offset < n
            invariant_except_break
                fitted_units_from(s, budget as int, kv, kc, 0) == fitted_units_from(
                    s,
                    budget as int,
                    kv,
                    kc,
                    offset as int,
                ),
                running == sat64(units_cost(s, offset as int, kv, kc)),
                fitted == sat32(offset as int),
                kv_charged == (if offset == 0 {
                    0
                } else {
                    imin(offset - 1, kc)
                }),
            invariant
                n == s.len(),
                s == self.unit_bytes@,
                offset <= n,
                kv == kv_bytes_per_layer as int,
                kc == kv_layer_count as int,
            ensures
                fitted == sat32(fitted_units_from(s, budget as int, kv, kc, 0)),
            decreases n - offset,
        {
            let index = n - 1 - offset;
            let ghost c0 = units_cost(s, offset as int, kv, kc);
            let ghost charge = offset >= 1 && offset <= kc;
            assert(units_cost(s, offset + 1, kv, kc) == c0 + s[index as int] + (if charge {
                kv
            } else {
                0
            }));
            proof {
                lemma_units_cost_nonneg(s, offset as int, kv, kc);
            }
            running = running.saturating_add(self.unit_bytes[index]);
            if index != n - 1 && kv_charged < kv_layer_count {
                running = running.saturating_add(kv_bytes_per_layer);
                kv_charged += 1;
            }
            assert(running == sat64(units_cost(s, offset + 1, kv, kc)));
            if running > budget {
                break;
            }
            assert(fitted_units_from(s, budget as int, kv, kc, offset as int) == fitted_units_from(
                s,
                budget as int,
                kv,
                kc,
                offset + 1,
            ));
            offset += 1;
            fitted = if offset <= u32::MAX as usize {
                offset as u32
            } else {
                u32::MAX
            };
        }
        fitted
    }
}

// ---------------------------------------------------------------------------
// Tensor names
// ---------------------------------------------------------------------------

pub open spec fn is_digit(c: char) -> bool {
    '0' <= c && c <= '9'
}

/// The number a string of decimal digits spells.
pub open spec fn digits_value(s: Seq<char>) -> int
    decreases s.len(),
{
    if s.len() == 0 {
        0
    } else {
        digits_value(s.drop_last()) * 10 + (s.last() as int - '0' as int)
    }
}

pub open spec fn all_digits(d: Seq<char>) -> bool {
    forall|i: int| 0 <= i < d.len() ==> is_digit(#[trigger] d[i])
}

/// The text after an optional leading `+`.
pub open spec fn unsigned_part(s: Seq<char>) -> Seq<char> {
    if s.len() > 0 && s[0] == '+' {
        s.drop_first()
    } else {
        s
    }
}

/// `u32::from_str`: an optional `+` followed by one or more decimal digits,
/// whose value fits in `u32`.
pub open spec fn parse_u32_spec(s: Seq<char>) -> Option<int> {
    let d = unsigned_part(s);
    if d.len() > 0 && all_digits(d) && digits_value(d) <= u32::MAX {
        Some(digits_value(d))
    } else {
        None
    }
}

/// The first index of `c` in `s` at or after `i`.
pub open spec fn char_index_from(s: Seq<char>, c: char, i: int) -> Option<int>
    decreases s.len() - i,
{
    if i >= s.len() {
        None
    } else if s[i] == c {
        Some(i)
    } else {
        char_index_from(s, c, i + 1)
    }
}

/// `blk.<n>.`: the repeating-layer index a tensor name carries.
pub open spec fn block_index_spec(name: Seq<char>) -> Option<int> {
    if name.len() >= 4 && name.take(4) == seq!['b', 'l', 'k', '.'] {
        let rest = name.skip(4);
        match char_index_from(rest, '.', 0) {
            Some(d) => parse_u32_spec(rest.take(d)),
            None => None,
        }
    } else {
        None
    }
}

proof fn lemma_digits_value_push(s: Seq<char>, c: char)
    ensures
        digits_value(s.push(c)) == digits_value(s) * 10 + (c as int - '0' as int),
{
    assert(s.push(c).drop_last() =~= s);
}

/// `str::parse::<u32>` on a run of characters.
pub fn parse_u32_chars(s: &[char]) -> (r: Option<u32>)
    ensures
        match r {
            Some(v) => parse_u32_spec(s@) == Some(v as int),
            None => parse_u32_spec(s@) is None,
        },
{
    let start: usize = if s.len() > 0 && s[0] == '+' {
        1
    } else {
        0
    };
    let ghost d = unsigned_part(s@);
    assert(d =~= s@.skip(start as int));
    if start >= s.len() {
        return None;
    }
    let mut value: u32 = 0;
    let mut i: usize = start;
    while i < s.len()
        invariant
            start <= i <= s.len(),
            start < s.len(),
            d == s@.skip(start as int),
            d == unsigned_part(s@),
            forall|k: int| 0 <= k < i - start ==> is_digit(#[trigger] d[k]),
            value as int == digits_value(d.take(i - start)),
        decreases s.len() - i,
    {
        let c = s[i];
        if !('0' <= c && c <= '9') {
            assert(!is_digit(d[i - start]));
            proof {
                lemma_parse_none_if_nondigit(s@, (i - start) as int);
            }
            return None;
        }
        let digit: u32 = (c as u32) - ('0' as u32);
        proof {
            assert(d.take(i - start + 1) =~= d.take(i - start).push(c));
            lemma_digits_value_push(d.take(i - start), c);
        }
        if value > 429496729 || (value == 429496729 && digit > 5) {
            proof {
                if all_digits(d) {
                    lemma_digits_value_prefix_bound(d, i - start + 1);
                    lemma_parse_none_if_large(s@);
                } else {
                    let k = choose|k: int| 0 <= k < d.len() && !is_digit(#[trigger] d[k]);
                    lemma_parse_none_if_nondigit(s@, k);
                }
            }
            return None;
        }
        value = value * 10 + digit;
        i += 1;
    }
    assert(d.take(s.len() - start) =~= d);
    Some(value)
}

proof fn lemma_parse_none_if_nondigit(s: Seq<char>, k: int)
    requires
        0 <= k < unsigned_part(s).len(),
        !is_digit(unsigned_part(s)[k]),
    ensures
        parse_u32_spec(s) is None,
{
}

proof fn lemma_parse_none_if_large(s: Seq<char>)
    requires
        digits_value(unsigned_part(s)) > u32::MAX,
    ensures
        parse_u32_spec(s) is None,
{
}

proof fn lemma_digits_value_prefix_bound(d: Seq<char>, k: int)
    requires
        0 < k <= d.len(),
        all_digits(d),
    ensures
        digits_value(d) >= digits_value(d.take(k)),
    decreases d.len() - k,
{
    if k < d.len() {
        lemma_digits_value_prefix_bound(d, k + 1);
        assert(d.take(k + 1).drop_last() =~= d.take(k));
        assert(is_digit(d[k]));
        assert(all_digits(d.take(k))) by {
            assert forall|i: int| 0 <= i < k implies is_digit(#[trigger] d.take(k)[i]) by {
                assert(d.take(k)[i] == d[i]);
            }
        }
        lemma_digits_value_nonneg(d.take(k));
    } else {
        assert(d.take(k) =~= d);
    }
}

proof fn lemma_digits_value_nonneg(d: Seq<char>)
    requires
        all_digits(d),
    ensures
        digits_value(d) >= 0,
    decreases d.len(),
{
    if d.len() > 0 {
        assert(is_digit(d[d.len() - 1]));
        assert(all_digits(d.drop_last())) by {
            assert forall|i: int| 0 <= i < d.len() - 1 implies is_digit(#[trigger] d.drop_last()[i]) by {
                assert(d.drop_last()[i] == d[i]);
            }
        }
        lemma_digits_value_nonneg(d.drop_last());
    }
}

fn char_index(s: &[char], c: char) -> (r: Option<usize>)
    ensures
        match r {
            Some(i) => char_index_from(s@, c, 0) == Some(i as int),
            None => char_index_from(s@, c, 0) is None,
        },
{
    let mut i: usize = 0;
    while i < s.len()
        invariant
            i <= s.len(),
            char_index_from(s@, c, 0) == char_index_from(s@, c, i as int),
        decreases s.len() - i,
    {
        if s[i] == c {
            return Some(i);
        }
        i += 1;
    }
    None
}

/// `blk.<n>.` prefix parser, matching llama.cpp's repeating-layer naming.
pub fn block_index(tensor_name: &str) -> (r: Option<u32>)
    ensures
        match r {
            Some(v) => block_index_spec(tensor_name@) == Some(v as int),
            None => block_index_spec(tensor_name@) is None,
        },
{
    let name = str_chars(tensor_name);
    if name.len() < 4 || !(name[0] == 'b' && name[1] == 'l' && name[2] == 'k' && name[3] == '.') {
        proof {
            if name@.len() >= 4 {
                assert(name@.take(4)[0] == name@[0]);
                assert(name@.take(4)[1] == name@[1]);
                assert(name@.take(4)[2] == name@[2]);
                assert(name@.take(4)[3] == name@[3]);
            }
        }
        return None;
    }
    assert(name@.take(4) =~= seq!['b', 'l', 'k', '.']);
    let mut rest: Vec<char> = Vec::new();
    let mut i: usize = 4;
    while i < name.len()
        invariant
            4 <= i <= name.len(),
            rest@ == name@.subrange(4, i as int),
        decreases name.len() - i,
    {
        rest.push(name[i]);
        i += 1;
        assert(name@.subrange(4, i as int) =~= name@.subrange(4, i - 1).push(name@[i - 1]));
    }
    assert(rest@ =~= name@.skip(4));
    match char_index(rest.as_slice(), '.') {
        Some(d) => {
            proof {
                lemma_char_index_bound(rest@, '.', 0);
            }
            let mut digits: Vec<char> = Vec::new();
            let mut k: usize = 0;
            while k < d
                invariant
                    k <= d,
                    d <= rest.len(),
                    digits@ == rest@.take(k as int),
                decreases d - k,
            {
                digits.push(rest[k]);
                k += 1;
                assert(rest@.take(k as int) =~= rest@.take(k - 1).push(rest@[k - 1]));
            }
            parse_u32_chars(digits.as_slice())
        },
        None => None,
    }
}

proof fn lemma_char_index_bound(s: Seq<char>, c: char, i: int)
    requires
        0 <= i,
    ensures
        char_index_from(s, c, i) matches Some(k) ==> i <= k < s.len() && s[k] == c,
    decreases s.len() - i,
{
    if i < s.len() && s[i] != c {
        lemma_char_index_bound(s, c, i + 1);
    }
}

// ---------------------------------------------------------------------------
// Per-unit costs from the GGUF tensor index
// ---------------------------------------------------------------------------

pub open spec fn starts_with_token_embd(name: Seq<char>) -> bool {
    name.len() >= 10 && name.take(10) == seq!['t', 'o', 'k', 'e', 'n', '_', 'e', 'm', 'b', 'd']
}

/// Bytes of the tensors of block `k`, summed with saturation.
pub open spec fn block_bytes_spec(ts: Seq<(String, u64)>, k: int) -> int
    decreases ts.len(),
{
    if ts.len() == 0 {
        0
    } else {
        let prev = block_bytes_spec(ts.drop_last(), k);
        if block_index_spec(ts.last().0@) == Some(k) {
            sat64(prev + ts.last().1)
        } else {
            prev
        }
    }
}

/// Bytes of the input embedding tensors (`token_embd*`), summed with saturation.
pub open spec fn input_bytes_spec(ts: Seq<(String, u64)>) -> int
    decreases ts.len(),
{
    if ts.len() == 0 {
        0
    } else {
        let prev = input_bytes_spec(ts.drop_last());
        let name = ts.last().0@;
        if block_index_spec(name) is None && starts_with_token_embd(name) {
            sat64(prev + ts.last().1)
        } else {
            prev
        }
    }
}

/// Bytes of every other tensor (the output layer), summed with saturation.
pub open spec fn output_bytes_spec(ts: Seq<(String, u64)>) -> int
    decreases ts.len(),
{
    if ts.len() == 0 {
        0
    } else {
        let prev = output_bytes_spec(ts.drop_last());
        let name = ts.last().0@;
        if block_index_spec(name) is None && !starts_with_token_embd(name) {
            sat64(prev + ts.last().1)
        } else {
            prev
        }
    }
}

/// The highest block index named by any tensor.
pub open spec fn max_block_spec(ts: Seq<(String, u64)>) -> Option<int>
    decreases ts.len(),
{
    if ts.len() == 0 {
        None
    } else {
        let prev = max_block_spec(ts.drop_last());
        match block_index_spec(ts.last().0@) {
            Some(b) => match prev {
                Some(m) => Some(imax(m, b)),
                None => Some(b),
            },
            None => prev,
        }
    }
}

pub open spec fn has_output_weight_spec(ts: Seq<(String, u64)>) -> bool {
    exists|i: int| 0 <= i < ts.len() && #[trigger] ts[i].0@ == "output.weight"@
}

/// The output unit: the output tensors, plus a duplicate of the embedding
/// when the model ties its head to the embedding (no `output.weight`).
pub open spec fn output_unit_spec(ts: Seq<(String, u64)>) -> int {
    if has_output_weight_spec(ts) {
        output_bytes_spec(ts)
    } else {
        sat64(output_bytes_spec(ts) + input_bytes_spec(ts))
    }
}

proof fn lemma_block_index_range(name: Seq<char>)
    ensures
        block_index_spec(name) matches Some(b) ==> 0 <= b <= u32::MAX,
{
    if name.len() >= 4 && name.take(4) == seq!['b', 'l', 'k', '.'] {
        let rest = name.skip(4);
        match char_index_from(rest, '.', 0) {
            Some(d) => {
                let p = rest.take(d);
                if parse_u32_spec(p) is Some {
                    lemma_digits_value_nonneg(unsigned_part(p));
                }
            },
            None => {},
        }
    }
}

proof fn lemma_output_weight_name()
    ensures
        block_index_spec("output.weight"@) is None,
        !starts_with_token_embd("output.weight"@),
{
    reveal_strlit("output.weight");
    let n = "output.weight"@;
    assert(n.take(4)[0] == 'o');
    assert(n.take(10)[0] == 'o');
}

proof fn lemma_max_block_facts(ts: Seq<(String, u64)>)
    ensures
        max_block_spec(ts) matches Some(m) ==> 0 <= m <= u32::MAX && forall|i: int|
            0 <= i < ts.len() ==> (#[trigger] block_index_spec(ts[i].0@) matches Some(b) ==> b <= m),
        max_block_spec(ts) is None ==> forall|i: int|
            0 <= i < ts.len() ==> #[trigger] block_index_spec(ts[i].0@) is None,
    decreases ts.len(),
{
    if ts.len() > 0 {
        lemma_max_block_facts(ts.drop_last());
        assert forall|i: int| 0 <= i < ts.len() - 1 implies ts.drop_last()[i] == ts[i] by {}
        let name = ts.last().0@;
        lemma_block_index_range(name);
        assert forall|i: int| 0 <= i < ts.len() implies (#[trigger] block_index_spec(ts[i].0@) matches Some(b)
            ==> b <= max_block_spec(ts)->0) by {
            if i < ts.len() - 1 {
                assert(ts.drop_last()[i] == ts[i]);
            }
        }
        if max_block_spec(ts) is None {
            assert forall|i: int| 0 <= i < ts.len() implies #[trigger] block_index_spec(ts[i].0@) is None by {
                if i < ts.len() - 1 {
                    assert(ts.drop_last()[i] == ts[i]);
                }
            }
        }
    }
}

/// Reads per-unit costs out of a GGUF tensor index given as (name, byte
/// size) pairs. `None` when no tensor belongs to a repeating block.
pub fn offload_costs_from_tensors(tensors: &[(String, u64)]) -> (r: Option<ModelOffloadCosts>)
    requires
        max_block_spec(tensors@) != Some(u32::MAX as int),
    ensures
        match r {
            None => max_block_spec(tensors@) is None,
            Some(c) => {
                let m = max_block_spec(tensors@)->0;
                &&& max_block_spec(tensors@) is Some
                &&& c@.len() == m + 2
                &&& forall|k: int| 0 <= k <= m ==> #[trigger] c@[k] == block_bytes_spec(tensors@, k)
                &&& c@[m + 1] == output_unit_spec(tensors@)
            },
        },
{
    let ghost ts = tensors@;
    proof {
        lemma_max_block_facts(ts);
    }
    // The highest block index.
    let mut max_block: Option<u32> = None;
    let mut i: usize = 0;
    while i < tensors.len()
        invariant
            i <= tensors.len(),
            ts == tensors@,
            match max_block {
                Some(m) => max_block_spec(ts.take(i as int)) == Some(m as int),
                None => max_block_spec(ts.take(i as int)) is None,
            },
        decreases tensors.len() - i,
    {
        assert(ts.take(i + 1).drop_last() =~= ts.take(i as int));
        let b = block_index(tensors[i].0.as_str());
        match b {
            Some(bv) => {
                max_block = match max_block {
                    Some(m) => Some(max_u32(m, bv)),
                    None => Some(bv),
                };
            },
            None => {},
        }
        i += 1;
    }
    assert(ts.take(tensors.len() as int) =~= ts);
    let m = match max_block {
        Some(m) => m,
        None => {
            return None;
        },
    };
    let n_layer_all: usize = (m + 1) as usize;
    let mut unit_bytes: Vec<u64> = Vec::new();
    let mut k: usize = 0;
    while k < n_layer_all
        invariant
            k <= n_layer_all,
            unit_bytes@.len() == k,
            forall|j: int| 0 <= j < k ==> #[trigger] unit_bytes@[j] == 0,
        decreases n_layer_all - k,
    {
        unit_bytes.push(0);
        k += 1;
    }
    let mut input_bytes: u64 = 0;
    let mut output_bytes: u64 = 0;
    let mut has_output_weight = false;
    let mut i: usize = 0;
    while i < tensors.len()
        invariant
            i <= tensors.len(),
            ts == tensors@,
            n_layer_all == m + 1,
            max_block_spec(ts) == Some(m as int),
            forall|j: int| 0 <= j < ts.len() ==> (#[trigger] block_index_spec(ts[j].0@) matches Some(b) ==> b <= m),
            unit_bytes@.len() == n_layer_all,
            forall|j: int| 0 <= j < n_layer_all ==> #[trigger] unit_bytes@[j] == block_bytes_spec(ts.take(i as int), j),
            input_bytes == input_bytes_spec(ts.take(i as int)),
            output_bytes == output_bytes_spec(ts.take(i as int)),
            has_output_weight == has_output_weight_spec(ts.take(i as int)),
        decreases tensors.len() - i,
    {
        let ghost prefix = ts.take(i + 1);
        assert(prefix.drop_last() =~= ts.take(i as int));
        assert(prefix.last() == ts[i as int]);
        let name = tensors[i].0.as_str();
        let size = tensors[i].1;
        let b = block_index(name);
        let name_chars = str_chars(name);
        match b {
            Some(bv) => {
                let idx = bv as usize;
                let cur = unit_bytes[idx];
                unit_bytes.set(idx, cur.saturating_add(size));
            },
            None => {
                let is_embd = name_chars.len() >= 10 && name_chars[0] == 't' && name_chars[1] == 'o'
                    && name_chars[2] == 'k' && name_chars[3] == 'e' && name_chars[4] == 'n'
                    && name_chars[5] == '_' && name_chars[6] == 'e' && name_chars[7] == 'm'
                    && name_chars[8] == 'b' && name_chars[9] == 'd';
                proof {
                    if name_chars@.len() >= 10 {
                        assert(name_chars@.take(10) =~= seq![
                            name_chars@[0],
                            name_chars@[1],
                            name_chars@[2],
                            name_chars@[3],
                            name_chars@[4],
                            name_chars@[5],
                            name_chars@[6],
                            name_chars@[7],
                            name_chars@[8],
                            name_chars@[9],
                        ]);
                    }
                }
                if is_embd {
                    input_bytes = input_bytes.saturating_add(size);
                } else {
                    if chars_eq_str(name_chars.as_slice(), "output.weight") {
                        has_output_weight = true;
                    }
                    output_bytes = output_bytes.saturating_add(size);
                }
            },
        }
        proof {
            lemma_output_weight_name();
            assert forall|j: int| 0 <= j < prefix.len() - 1 implies prefix[j] == #[trigger] ts.take(i as int)[j] by {}
            if has_output_weight_spec(ts.take(i as int)) {
                let w = choose|w: int| 0 <= w < i && #[trigger] ts.take(i as int)[w].0@ == "output.weight"@;
                assert(prefix[w] == ts.take(i as int)[w]);
            }
            if has_output_weight_spec(prefix) {
                let w = choose|w: int| 0 <= w < i + 1 && #[trigger] prefix[w].0@ == "output.weight"@;
                if w < i {
                    assert(ts.take(i as int)[w] == prefix[w]);
                }
            }
        }
        i += 1;
    }
    assert(ts.take(tensors.len() as int) =~= ts);
    if !has_output_weight {
        output_bytes = output_bytes.saturating_add(input_bytes);
    }
    unit_bytes.push(output_bytes);
    Some(ModelOffloadCosts { unit_bytes })
}

// ---------------------------------------------------------------------------
// KV cache element size
// ---------------------------------------------------------------------------

/// Bytes per KV cache value for a llama.cpp cache type name, in eighths of a
/// byte (so that quantised types are exact): `f32` is 32, `f16` 16, `q8_*` 8,
/// `q6_k` 6, `q5_*` 5, `q4_*` and `iq4_nl` 4, `q3_k`/`iq3_*` 3, `q2_k`/`iq2_*`/
/// `iq1_s` 2; anything else counts as `f16`. The name is trimmed and compared
/// without ASCII case.
pub open spec fn kv_value_eighths_spec(kv_type: Option<Seq<char>>) -> int {
    match kv_type {
        None => 16,
        Some(t) => {
            let k = ascii_lower_seq(trim_spec(t));
            if k == "f32"@ {
                32
            } else if k == "f16"@ {
                16
            } else if k == "q8_1"@ || k == "q8_0"@ {
                8
            } else if k == "q6_k"@ {
                6
            } else if k == "q5_k"@ || k == "q5_1"@ || k == "q5_0"@ {
                5
            } else if k == "q4_k"@ || k == "q4_1"@ || k == "q4_0"@ {
                4
            } else if k == "q3_k"@ || k == "iq3_s"@ || k == "iq3_xxs"@ {
                3
            } else if k == "q2_k"@ || k == "iq2_xs"@ || k == "iq2_xxs"@ || k == "iq1_s"@ {
                2
            } else if k == "iq4_nl"@ {
                4
            } else {
                16
            }
        },
    }
}

pub fn kv_value_eighths(llama_kv_type: Option<&str>) -> (r: u64)
    ensures
        r == kv_value_eighths_spec(match llama_kv_type {
            Some(t) => Some(t@),
            None => None,
        }),
{
    match llama_kv_type {
        None => 16,
        Some(t) => {
            let chars = str_chars(t);
            let trimmed = trim_chars(chars.as_slice());
            let lower = ascii_lower_chars(trimmed.as_slice());
            let k = lower.as_slice();
            if chars_eq_str(k, "f32") {
                32
            } else if chars_eq_str(k, "f16") {
                16
            } else if chars_eq_str(k, "q8_1") || chars_eq_str(k, "q8_0") {
                8
            } else if chars_eq_str(k, "q6_k") {
                6
            } else if chars_eq_str(k, "q5_k") || chars_eq_str(k, "q5_1") || chars_eq_str(k, "q5_0") {
                5
            } else if chars_eq_str(k, "q4_k") || chars_eq_str(k, "q4_1") || chars_eq_str(k, "q4_0") {
                4
            } else if chars_eq_str(k, "q3_k") || chars_eq_str(k, "iq3_s") || chars_eq_str(
                k,
                "iq3_xxs",
            ) {
                3
            } else if chars_eq_str(k, "q2_k") || chars_eq_str(k, "iq2_xs") || chars_eq_str(
                k,
                "iq2_xxs",
            ) || chars_eq_str(k, "iq1_s") {
                2
            } else if chars_eq_str(k, "iq4_nl") {
                4
            } else {
                16
            }
        },
    }
}

// ---------------------------------------------------------------------------
// Memory budgets and context sizing
// ---------------------------------------------------------------------------

pub open spec fn default_memory_reserve_spec(available: int) -> int {
    imax(available / 5, 536870912int)
}

/// A fifth of the memory, but never less than 512 MiB, stays free.
pub fn default_memory_reserve_bytes(available_memory_bytes: u64) -> (r: u64)
    ensures
        r == default_memory_reserve_spec(available_memory_bytes as int),
{
    max_u64(available_memory_bytes / 5, 512 * 1024 * 1024)
}

pub open spec fn ram_budget_spec(m: LlamaModelMetadata, available: int) -> int {
    monus(available, sat64(m.model_size_bytes + default_memory_reserve_spec(available)))
}

/// Host memory left for the context once the model and the reserve are in.
pub fn ram_budget_for_context(metadata: &LlamaModelMetadata, available_memory_bytes: u64) -> (r: u64)
    ensures
        r == ram_budget_spec(*metadata, available_memory_bytes as int),
{
    let reserve = default_memory_reserve_bytes(available_memory_bytes);
    available_memory_bytes.saturating_sub(metadata.model_size_bytes.saturating_add(reserve))
}

/// Tokens of context that fit in `available` bytes at `kv_bytes_per_token`,
/// capped by the model's training context. `None` for a zero per-token cost.
pub open spec fn context_from_budget(m: LlamaModelMetadata, available: int, kv_bytes_per_token: int) -> Option<int> {
    if kv_bytes_per_token == 0 {
        None
    } else {
        Some(imin(available / kv_bytes_per_token, m.max_context_length as int))
    }
}

pub open spec fn recommended_context_spec(
    m: LlamaModelMetadata,
    available_memory: Option<u64>,
    available_vram: Option<u64>,
    offload_kqv: Option<bool>,
    kv_bytes_per_token: int,
) -> Option<int> {
    if offload_kqv == Some(true) {
        match available_vram {
            None => None,
            Some(v) => context_from_budget(m, monus(v as int, default_memory_reserve_spec(v as int)), kv_bytes_per_token),
        }
    } else {
        match available_memory {
            None => None,
            Some(a) => context_from_budget(m, ram_budget_spec(m, a as int), kv_bytes_per_token),
        }
    }
}

fn context_for_budget(metadata: &LlamaModelMetadata, available_for_ctx: u64, kv_bytes_per_token: u64) -> (r: Option<u32>)
    ensures
        match r {
            Some(v) => context_from_budget(*metadata, available_for_ctx as int, kv_bytes_per_token as int) == Some(v as int),
            None => context_from_budget(*metadata, available_for_ctx as int, kv_bytes_per_token as int) is None,
        },
{
    if kv_bytes_per_token == 0 {
        return None;
    }
    let mut recommended = available_for_ctx / kv_bytes_per_token;
    if recommended > metadata.max_context_length as u64 {
        recommended = metadata.max_context_length as u64;
    }
    Some(recommended as u32)
}

/// Context length the memory allows: the KV cache goes to VRAM when KQV is
/// offloaded, to host memory otherwise. `kv_bytes_per_token` is the KV cache
/// cost of one token.
pub fn compute_recommended_context(
    metadata: &LlamaModelMetadata,
    available_memory_bytes: Option<u64>,
    available_vram_bytes: Option<u64>,
    llama_offload_kqv: Option<bool>,
    kv_bytes_per_token: u64,
) -> (r: Option<u32>)
    ensures
        match r {
            Some(v) => recommended_context_spec(*metadata, available_memory_bytes, available_vram_bytes, llama_offload_kqv, kv_bytes_per_token as int) == Some(v as int),
            None => recommended_context_spec(*metadata, available_memory_bytes, available_vram_bytes, llama_offload_kqv, kv_bytes_per_token as int) is None,
        },
{
    let available_for_ctx = if llama_offload_kqv == Some(true) {
        let vram = match available_vram_bytes {
            Some(v) => v,
            None => {
                return None;
            },
        };
        let reserve = default_memory_reserve_bytes(vram);
        vram.saturating_sub(reserve)
    } else {
        let ram = match available_memory_bytes {
            Some(v) => v,
            None => {
                return None;
            },
        };
        ram_budget_for_context(metadata, ram)
    };
    context_for_budget(metadata, available_for_ctx, kv_bytes_per_token)
}

// ---------------------------------------------------------------------------
// Multi-token-prediction draft reserve
// ---------------------------------------------------------------------------

pub open spec fn mtp_compute_reserve_spec(planned_context: int) -> int {
    imax(sat64(384 * 1024 * 1024 * imax(planned_context, 1)) / 16384, 134217728int)
}

/// Compute buffer of a bundled MTP draft: 384 MiB at a 16K context, scaled
/// linearly, never below 128 MiB.
pub fn estimate_mtp_compute_reserve_bytes(planned_context: u32) -> (r: u64)
    ensures
        r == mtp_compute_reserve_spec(planned_context as int),
{
    let scaled = sat_mul_u64(384 * 1024 * 1024, max_u32(planned_context, 1) as u64);
    max_u64(scaled / 16384, 128 * 1024 * 1024)
}

/// VRAM a bundled MTP draft needs: its weights plus its compute buffer.
pub fn estimate_mtp_gpu_reserve_bytes(metadata: &LlamaModelMetadata, planned_context: u32) -> (r: u64)
    ensures
        r == sat64(metadata.model_size_bytes + mtp_compute_reserve_spec(planned_context as int)),
{
    metadata.model_size_bytes.saturating_add(estimate_mtp_compute_reserve_bytes(planned_context))
}

/// Index, among the first `n` devices, of the last one with the most free
/// VRAM (`max_by_key` keeps the last maximum).
pub open spec fn best_device_upto(free: Seq<u64>, n: int) -> int
    decreases n,
{
    if n <= 1 {
        0
    } else {
        let b = best_device_upto(free, n - 1);
        if free[n - 1] >= free[b] {
            n - 1
        } else {
            b
        }
    }
}

proof fn lemma_best_device(free: Seq<u64>, n: int)
    requires
        1 <= n <= free.len(),
    ensures
        0 <= best_device_upto(free, n) < n,
        forall|j: int| 0 <= j < n ==> #[trigger] free[j] <= free[best_device_upto(free, n)],
        forall|j: int| best_device_upto(free, n) < j < n ==> #[trigger] free[j] < free[best_device_upto(free, n)],
    decreases n,
{
    if n > 1 {
        lemma_best_device(free, n - 1);
    }
}

/// The selected device with the most free VRAM (the last such on ties).
pub fn select_mtp_gpu_device(selected_device_ids: &[usize], device_free_vram: &[u64]) -> (r: Option<usize>)
    ensures
        ({
            let n = imin(selected_device_ids.len() as int, device_free_vram.len() as int);
            match r {
                None => n == 0,
                Some(id) => n > 0 && id == selected_device_ids@[best_device_upto(device_free_vram@, n)],
            }
        }),
{
    let n = if selected_device_ids.len() < device_free_vram.len() {
        selected_device_ids.len()
    } else {
        device_free_vram.len()
    };
    if n == 0 {
        return None;
    }
    let mut best: usize = 0;
    let mut i: usize = 1;
    while i < n
        invariant
            1 <= i <= n,
            n <= device_free_vram.len(),
            n <= selected_device_ids.len(),
            best == best_device_upto(device_free_vram@, i as int),
        decreases n - i,
    {
        proof {
            lemma_best_device(device_free_vram@, i as int);
        }
        if device_free_vram[i] >= device_free_vram[best] {
            best = i;
        }
        i += 1;
    }
    proof {
        lemma_best_device(device_free_vram@, n as int);
    }
    Some(selected_device_ids[best])
}

/// The first position of `id` among the selected devices.
pub open spec fn position_from(ids: Seq<usize>, id: usize, i: int) -> Option<int>
    decreases ids.len() - i,
{
    if i >= ids.len() {
        None
    } else if ids[i] == id {
        Some(i)
    } else {
        position_from(ids, id, i + 1)
    }
}

pub open spec fn reserve_device_spec(ids: Seq<usize>, free: Seq<u64>, device_id: Option<usize>, reserve: int) -> Seq<u64> {
    match device_id {
        None => free,
        Some(id) => match position_from(ids, id, 0) {
            Some(p) => if p < free.len() {
                free.update(p, monus(free[p] as int, reserve) as u64)
            } else {
                free
            },
            None => free,
        },
    }
}

/// Free VRAM per selected device after setting `reserve_bytes` aside on
/// `device_id`.
pub fn reserve_device_vram(
    selected_device_ids: &[usize],
    device_free_vram: &[u64],
    device_id: Option<usize>,
    reserve_bytes: u64,
) -> (r: Vec<u64>)
    ensures
        r@ == reserve_device_spec(selected_device_ids@, device_free_vram@, device_id, reserve_bytes as int),
{
    let mut adjusted: Vec<u64> = Vec::new();
    let mut k: usize = 0;
    while k < device_free_vram.len()
        invariant
            k <= device_free_vram.len(),
            adjusted@ == device_free_vram@.take(k as int),
        decreases device_free_vram.len() - k,
    {
        adjusted.push(device_free_vram[k]);
        k += 1;
        assert(device_free_vram@.take(k as int) =~= device_free_vram@.take(k - 1).push(device_free_vram@[k - 1]));
    }
    assert(device_free_vram@.take(device_free_vram.len() as int) =~= device_free_vram@);
    if let Some(id) = device_id {
        let mut i: usize = 0;
        while i < selected_device_ids.len()
            invariant
                i <= selected_device_ids.len(),
                adjusted@ == device_free_vram@,
                device_id == Some(id),
                position_from(selected_device_ids@, id, 0) == position_from(selected_device_ids@, id, i as int),
            decreases selected_device_ids.len() - i,
        {
            if selected_device_ids[i] == id {
                assert(position_from(selected_device_ids@, id, i as int) == Some(i as int));
                if i < adjusted.len() {
                    let free = adjusted[i];
                    adjusted.set(i, free.saturating_sub(reserve_bytes));
                    assert(adjusted@ =~= device_free_vram@.update(
                        i as int,
                        monus(device_free_vram@[i as int] as int, reserve_bytes as int) as u64,
                    ));
                    assert(adjusted@[i as int] == monus(device_free_vram@[i as int] as int, reserve_bytes as int) as u64);
                }
                assert(device_id == Some(id));
                assert(i < device_free_vram@.len() ==> adjusted@ == device_free_vram@.update(
                        i as int,
                        monus(device_free_vram@[i as int] as int, reserve_bytes as int) as u64,
                    ));
                assert(i >= device_free_vram@.len() ==> adjusted@ == device_free_vram@);
                return adjusted;
            }
            i += 1;
        }
    }
    adjusted
}

// ---------------------------------------------------------------------------
// Runtime reserve
// ---------------------------------------------------------------------------

/// llama.cpp's flash-attention setting.
#[derive(Clone, Copy, Debug, PartialEq, Eq, Structural)]
pub enum FlashAttentionPolicy {
    /// Used when the backend supports it (always on CUDA).
    Auto,
    Disabled,
    Enabled,
}

pub open spec fn runtime_reserve_spec(
    m: LlamaModelMetadata,
    available_vram: int,
    planned_context: int,
    n_batch: int,
    policy: FlashAttentionPolicy,
) -> int {
    let floor = imax(available_vram / 20, 268435456int);
    let attention = if policy != FlashAttentionPolicy::Disabled {
        0
    } else {
        sat64(
            sat64(
                sat64(sat64(imax(planned_context, 1) * imax(n_batch, 1)) * imax(m.n_head_kv as int, 1))
                    * 4,
            ) * 2,
        )
    };
    sat64(floor + attention)
}

/// VRAM kept free for compute buffers: a twentieth of the VRAM but at least
/// 256 MiB, plus the full attention score matrix when flash attention is
/// disabled (with any other setting llama.cpp uses flash attention).
pub fn estimated_runtime_reserve_bytes(
    metadata: &LlamaModelMetadata,
    available_vram_bytes: u64,
    planned_context: u32,
    n_batch: u32,
    flash_attention_policy: FlashAttentionPolicy,
) -> (r: u64)
    ensures
        r == runtime_reserve_spec(*metadata, available_vram_bytes as int, planned_context as int, n_batch as int, flash_attention_policy),
{
    let floor = max_u64(available_vram_bytes / 20, 256 * 1024 * 1024);
    let attention_reserve = if flash_attention_policy != FlashAttentionPolicy::Disabled {
        0
    } else {
        let a = sat_mul_u64(max_u32(planned_context, 1) as u64, max_u32(n_batch, 1) as u64);
        let b = sat_mul_u64(a, max_u64(metadata.n_head_kv, 1));
        let c = sat_mul_u64(b, 4);
        sat_mul_u64(c, 2)
    };
    floor.saturating_add(attention_reserve)
}

// ---------------------------------------------------------------------------
// Candidate layer counts
// ---------------------------------------------------------------------------

pub open spec fn push_unique_spec(s: Seq<u32>, v: u32) -> Seq<u32> {
    if s.contains(v) {
        s
    } else {
        s.push(v)
    }
}

/// Appends `value` unless it is already there.
pub fn push_unique(out: &mut Vec<u32>, value: u32)
    ensures
        final(out)@ == push_unique_spec(old(out)@, value),
{
    let mut i: usize = 0;
    while i < out.len()
        invariant
            i <= out.len(),
            out@ == old(out)@,
            forall|k: int| 0 <= k < i ==> out@[k] != value,
        decreases out.len() - i,
    {
        if out[i] == value {
            return;
        }
        i += 1;
    }
    out.push(value);
}

pub open spec fn strictly_decreasing(s: Seq<u32>) -> bool {
    forall|i: int, j: int| 0 <= i < j < s.len() ==> s[i] > s[j]
}

/// The ladder tried below an estimate: the estimate, three quarters, half, a
/// quarter and none.
pub open spec fn ladder_set(e: int) -> Set<int> {
    set![e, sat32(e * 3) / 4, e / 2, e / 4, 0]
}

/// Inserts `v` into a strictly decreasing list, keeping it so.
fn insert_desc_unique(v: &Vec<u32>, x: u32) -> (r: Vec<u32>)
    requires
        strictly_decreasing(v@),
    ensures
        strictly_decreasing(r@),
        forall|y: u32| r@.contains(y) <==> (v@.contains(y) || y == x),
{
    let mut out: Vec<u32> = Vec::new();
    let mut i: usize = 0;
    while i < v.len() && v[i] > x
        invariant
            i <= v.len(),
            strictly_decreasing(v@),
            out@ == v@.take(i as int),
            forall|k: int| 0 <= k < i ==> v@[k] > x,
        decreases v.len() - i,
    {
        out.push(v[i]);
        i += 1;
        assert(v@.take(i as int) =~= v@.take(i - 1).push(v@[i - 1]));
    }
    let mid = i;
    if i < v.len() && v[i] == x {
        // already present
    } else {
        out.push(x);
    }
    let ghost head = out@;
    while i < v.len()
        invariant
            mid <= i <= v.len(),
            strictly_decreasing(v@),
            out@ == head + v@.subrange(mid as int, i as int),
        decreases v.len() - i,
    {
        out.push(v[i]);
        i += 1;
        assert(v@.subrange(mid as int, i as int) =~= v@.subrange(mid as int, i - 1).push(v@[i - 1]));
    }
    proof {
        assert(forall|k: int| 0 <= k < mid ==> #[trigger] v@[k] > x);
        assert(forall|k: int| mid <= k < v.len() ==> #[trigger] v@[k] <= x);
        assert forall|y: u32| out@.contains(y) <==> (v@.contains(y) || y == x) by {
            if out@.contains(y) {
                let k = choose|k: int| 0 <= k < out@.len() && out@[k] == y;
                if k < mid {
                    assert(v@[k] == y);
                } else if k < head.len() {
                    assert(y == x);
                } else {
                    assert(v@[mid + (k - head.len())] == y);
                }
            }
            if v@.contains(y) {
                let k = choose|k: int| 0 <= k < v@.len() && v@[k] == y;
                if k < mid {
                    assert(out@[k] == y);
                } else {
                    assert(out@[head.len() + (k - mid)] == y);
                }
            }
            if y == x {
                if head.len() > mid {
                    assert(out@[mid as int] == y);
                } else {
                    assert(out@[mid as int] == v@[mid as int]);
                }
            }
        }
        assert forall|a: int, b: int| 0 <= a < b < out@.len() implies out@[a] > out@[b] by {
            if b < mid {
            } else if b < head.len() {
            } else {
                let vb = mid + (b - head.len());
                if a < mid {
                } else if a < head.len() {
                    if head.len() > mid {
                        assert(v@[vb] <= x);
                        if vb == mid {
                            assert(v@[mid as int] != x);
                        }
                    }
                } else {
                    let va = mid + (a - head.len());
                    assert(v@[va] > v@[vb]);
                }
            }
        }
    }
    out
}

/// Layer counts to try, largest first: the estimate (capped at the total)
/// and fractions of it down to zero.
pub fn candidate_gpu_layers(total_layers: u32, estimated_gpu_layers: u32) -> (r: Vec<u32>)
    ensures
        strictly_decreasing(r@),
        ({
            let e = imin(estimated_gpu_layers as int, total_layers as int);
            if total_layers == 0 || e == 0 {
                r@ == seq![0u32]
            } else {
                forall|y: u32| r@.contains(y) <==> ladder_set(e).contains(y as int)
            }
        }),
{
    if total_layers == 0 {
        return vec![0];
    }
    let estimate = min_u32(estimated_gpu_layers, total_layers);
    if estimate == 0 {
        return vec![0];
    }
    let three_quarters = sat_mul_u32(estimate, 3) / 4;
    let mut candidates: Vec<u32> = Vec::new();
    candidates = insert_desc_unique(&candidates, estimate);
    candidates = insert_desc_unique(&candidates, three_quarters);
    candidates = insert_desc_unique(&candidates, estimate / 2);
    candidates = insert_desc_unique(&candidates, estimate / 4);
    candidates = insert_desc_unique(&candidates, 0);
    proof {
        let e = estimate as int;
        assert forall|y: u32| candidates@.contains(y) <==> ladder_set(e).contains(y as int) by {}
    }
    candidates
}

pub open spec fn context_bucket_spec(context: int) -> int {
    if context <= 4096 {
        4096
    } else if context <= 8192 {
        8192
    } else if context <= 12288 {
        12288
    } else if context <= 16384 {
        16384
    } else if context <= 24576 {
        24576
    } else if context <= 32768 {
        32768
    } else if context <= 49152 {
        49152
    } else if context <= 65536 {
        65536
    } else {
        (sat32(context + 8191) / 8192) * 8192
    }
}

/// The context size bucket a context falls in: fixed steps up to 64K, then
/// multiples of 8K.
pub fn context_bucket_upper(context: u32) -> (r: u32)
    ensures
        r == context_bucket_spec(context as int),
{
    if context <= 4096 {
        4096
    } else if context <= 8192 {
        8192
    } else if context <= 12288 {
        12288
    } else if context <= 16384 {
        16384
    } else if context <= 24576 {
        24576
    } else if context <= 32768 {
        32768
    } else if context <= 49152 {
        49152
    } else if context <= 65536 {
        65536
    } else {
        (context.saturating_add(8191) / 8192) * 8192
    }
}

/// `push_unique` of each value in turn.
pub open spec fn push_all_unique(s: Seq<u32>, vs: Seq<u32>) -> Seq<u32>
    decreases vs.len(),
{
    if vs.len() == 0 {
        s
    } else {
        push_unique_spec(push_all_unique(s, vs.drop_last()), vs.last())
    }
}

pub open spec fn merged_candidates_spec(total: int, cached_gpu_layers: int, heuristic: Seq<u32>) -> Seq<u32> {
    let cached = imin(cached_gpu_layers, total);
    let front: Seq<u32> = if cached > 0 {
        seq![cached as u32, (sat32(cached * 3) / 4) as u32, (cached / 2) as u32, (cached / 4) as u32]
    } else {
        Seq::empty()
    };
    let capped = heuristic.map_values(|c: u32| imin(c as int, total) as u32);
    push_all_unique(Seq::empty(), front + capped + seq![0u32])
}

/// A cached layer count (and its fractions) first, then the heuristic
/// candidates capped at the total, then zero; each value once.
pub fn merge_cached_candidate_layers(total_layers: u32, cached_gpu_layers: u32, heuristic_candidates: &[u32]) -> (r: Vec<u32>)
    ensures
        r@ == merged_candidates_spec(total_layers as int, cached_gpu_layers as int, heuristic_candidates@),
{
    let ghost front: Seq<u32>;
    let mut merged: Vec<u32> = Vec::new();
    let cached = min_u32(cached_gpu_layers, total_layers);
    if cached > 0 {
        push_unique(&mut merged, cached);
        push_unique(&mut merged, sat_mul_u32(cached, 3) / 4);
        push_unique(&mut merged, cached / 2);
        push_unique(&mut merged, cached / 4);
        proof {
            front = seq![cached, (sat32(cached * 3) / 4) as u32, cached / 2, cached / 4];
            reveal_with_fuel(push_all_unique, 5);
            assert(front.drop_last().drop_last().drop_last().drop_last() =~= Seq::<u32>::empty());
            assert(front.drop_last().drop_last().drop_last() =~= seq![cached]);
            assert(front.drop_last().drop_last() =~= seq![cached, (sat32(cached * 3) / 4) as u32]);
            assert(front.drop_last() =~= seq![cached, (sat32(cached * 3) / 4) as u32, cached / 2]);
        }
    } else {
        proof {
            front = Seq::empty();
        }
    }
    let ghost capped = heuristic_candidates@.map_values(|c: u32| imin(c as int, total_layers as int) as u32);
    assert(merged@ == push_all_unique(Seq::empty(), front));
    let mut i: usize = 0;
    while i < heuristic_candidates.len()
        invariant
            i <= heuristic_candidates.len(),
            capped == heuristic_candidates@.map_values(|c: u32| imin(c as int, total_layers as int) as u32),
            merged@ == push_all_unique(Seq::empty(), front + capped.take(i as int)),
        decreases heuristic_candidates.len() - i,
    {
        let c = min_u32(heuristic_candidates[i], total_layers);
        push_unique(&mut merged, c);
        proof {
            let s = front + capped.take(i + 1);
            assert(s.drop_last() =~= front + capped.take(i as int));
            assert(s.last() == c);
        }
        i += 1;
    }
    push_unique(&mut merged, 0);
    proof {
        let s = front + capped + seq![0u32];
        assert(capped.take(heuristic_candidates.len() as int) =~= capped);
        assert(s.drop_last() =~= front + capped);
    }
    merged
}

// ---------------------------------------------------------------------------
// Weight placement and the smart offload plan
// ---------------------------------------------------------------------------

pub open spec fn costs_view(costs: Option<&ModelOffloadCosts>) -> Option<Seq<u64>> {
    match costs {
        Some(c) => Some(c@),
        None => None,
    }
}

/// Weight bytes on the GPU for the last `gpu_layers` units.
pub open spec fn gpu_bytes_spec(units: Seq<u64>, gpu_layers: int) -> int {
    sat64(seq_sum(units.skip(units.len() - imin(gpu_layers, units.len() as int))))
}

/// (CPU bytes, GPU bytes) of the model weights with `gpu_layers` units
/// offloaded: by the per-unit costs when known, else pro rata.
pub open spec fn weight_split_spec(m: LlamaModelMetadata, costs: Option<Seq<u64>>, gpu_layers: int) -> (int, int) {
    match costs {
        Some(units) => {
            let gpu = gpu_bytes_spec(units, gpu_layers);
            (monus(m.model_size_bytes as int, imin(gpu, m.model_size_bytes as int)), gpu)
        },
        None => {
            let total = offload_layer_count_spec(m);
            let gpu = sat64(m.model_size_bytes * imin(gpu_layers, total)) / total;
            (monus(m.model_size_bytes as int, gpu), gpu)
        },
    }
}

/// Splits the model weights between host memory and the GPU. The embedding
/// never leaves the CPU, so it is billed against host memory alongside
/// whatever units stayed behind.
pub fn model_weight_split_bytes(metadata: &LlamaModelMetadata, costs: Option<&ModelOffloadCosts>, gpu_layers: u32) -> (r: (u64, u64))
    ensures
        (r.0 as int, r.1 as int) == weight_split_spec(*metadata, costs_view(costs), gpu_layers as int),
{
    if let Some(costs) = costs {
        let gpu_weight_bytes = costs.gpu_bytes(gpu_layers);
        let cpu_weight_bytes = metadata.model_size_bytes.saturating_sub(
            min_u64(gpu_weight_bytes, metadata.model_size_bytes),
        );
        return (cpu_weight_bytes, gpu_weight_bytes);
    }
    let total_layers = metadata.offload_layer_count();
    let clamped_gpu_layers = min_u32(gpu_layers, total_layers);
    let gpu_weight_bytes = sat_mul_u64(metadata.model_size_bytes, clamped_gpu_layers as u64) / (total_layers as u64);
    let cpu_weight_bytes = metadata.model_size_bytes.saturating_sub(gpu_weight_bytes);
    (cpu_weight_bytes, gpu_weight_bytes)
}

/// Offloading every unit puts all of the model's weights on the GPU (when
/// no cost table is known and size times unit count stays within `u64`).
pub proof fn law_full_offload_moves_all_weights(m: LlamaModelMetadata)
    requires
        m.model_size_bytes * offload_layer_count_spec(m) <= u64::MAX,
    ensures
        weight_split_spec(m, None, offload_layer_count_spec(m)) == (0int, m.model_size_bytes as int),
{
    let total = offload_layer_count_spec(m);
    assert(total >= 1);
    let size = m.model_size_bytes as int;
    assert((size * total) / total == size) by (nonlinear_arith)
        requires
            total >= 1,
    ;
}

pub open spec fn recommended_context_for_layers_spec(
    m: LlamaModelMetadata,
    costs: Option<Seq<u64>>,
    available_memory: Option<u64>,
    available_vram: Option<u64>,
    gpu_layers: int,
    offload_kqv: Option<bool>,
    kv_bytes_per_token: int,
    sidecar_vram_reserve: int,
) -> Option<int> {
    let split = weight_split_spec(m, costs, gpu_layers);
    if offload_kqv == Some(true) {
        match available_vram {
            None => None,
            Some(v) => context_from_budget(
                m,
                monus(monus(v as int, sat64(split.1 + default_memory_reserve_spec(v as int))), sidecar_vram_reserve),
                kv_bytes_per_token,
            ),
        }
    } else {
        match available_memory {
            None => None,
            Some(a) => context_from_budget(
                m,
                monus(a as int, sat64(split.0 + default_memory_reserve_spec(a as int))),
                kv_bytes_per_token,
            ),
        }
    }
}

/// Context length that fits once `gpu_layers` units sit on the GPU: with
/// KQV offloaded the KV cache shares VRAM with the offloaded weights and
/// any sidecar reserve, otherwise host memory with the weights left there.
pub fn compute_recommended_context_for_gpu_layers(
    metadata: &LlamaModelMetadata,
    costs: Option<&ModelOffloadCosts>,
    available_memory_bytes: Option<u64>,
    available_vram_bytes: Option<u64>,
    gpu_layers: u32,
    llama_offload_kqv: Option<bool>,
    kv_bytes_per_token: u64,
    sidecar_vram_reserve_bytes: u64,
) -> (r: Option<u32>)
    ensures
        ({
            let spec = recommended_context_for_layers_spec(*metadata, costs_view(costs), available_memory_bytes,
                available_vram_bytes, gpu_layers as int, llama_offload_kqv, kv_bytes_per_token as int,
                sidecar_vram_reserve_bytes as int);
            match r {
                Some(v) => spec == Some(v as int),
                None => spec is None,
            }
        }),
{
    let (cpu_weight_bytes, gpu_weight_bytes) = model_weight_split_bytes(metadata, costs, gpu_layers);
    let available_for_ctx = if llama_offload_kqv == Some(true) {
        let vram = match available_vram_bytes {
            Some(v) => v,
            None => {
                return None;
            },
        };
        let reserve = default_memory_reserve_bytes(vram);
        vram.saturating_sub(gpu_weight_bytes.saturating_add(reserve)).saturating_sub(sidecar_vram_reserve_bytes)
    } else {
        let ram = match available_memory_bytes {
            Some(v) => v,
            None => {
                return None;
            },
        };
        let reserve = default_memory_reserve_bytes(ram);
        ram.saturating_sub(cpu_weight_bytes.saturating_add(reserve))
    };
    context_for_budget(metadata, available_for_ctx, kv_bytes_per_token)
}

/// The result of smart offload planning.
#[derive(Clone, Debug)]
pub struct SmartGpuOffloadPlan {
    pub total_layers: u32,
    pub recommended_context: Option<u32>,
    pub planned_context: u32,
    pub estimated_gpu_layers: u32,
    pub candidate_gpu_layers: Vec<u32>,
    pub kqv_vram_reserved: bool,
    pub planning_offload_kqv: Option<bool>,
    pub estimated_kv_bytes: u64,
    pub kv_bytes_per_layer: u64,
    pub estimated_sidecar_vram_reserve_bytes: u64,
    pub estimated_runtime_reserve_bytes: u64,
    pub effective_vram_budget_bytes: u64,
    pub bytes_per_layer: u64,
}

pub open spec fn opt_u32_view(o: Option<u32>) -> Option<int> {
    match o {
        Some(v) => Some(v as int),
        None => None,
    }
}

/// Offload units: per the cost table when there is one.
pub open spec fn plan_total_layers_spec(m: LlamaModelMetadata, costs: Option<Seq<u64>>) -> int {
    match costs {
        Some(units) => sat32(units.len() as int),
        None => offload_layer_count_spec(m),
    }
}

/// The context the plan is made for: the request, else the recommendation,
/// else the training context; clamped to `1..=max_context_length`.
pub open spec fn planned_context_spec(m: LlamaModelMetadata, requested: Option<u32>, recommended: Option<int>) -> int {
    let c = match requested {
        Some(v) => v as int,
        None => match recommended {
            Some(v) => v,
            None => m.max_context_length as int,
        },
    };
    if c < 1 {
        1
    } else if c > m.max_context_length {
        m.max_context_length as int
    } else {
        c
    }
}

/// Average bytes per repeating block, rounded up (0 if that overflows).
pub open spec fn bytes_per_layer_spec(m: LlamaModelMetadata) -> int {
    let n = model_layer_count_spec(m);
    if m.model_size_bytes + (n - 1) > u64::MAX {
        0
    } else {
        (m.model_size_bytes + (n - 1)) / n
    }
}

/// KV bytes per GPU layer: charged when the KV cache lives in VRAM (any
/// setting but an explicit `false`), doubled for a bundled MTP draft's
/// second context.
pub open spec fn kv_bytes_per_layer_spec(
    m: LlamaModelMetadata,
    offload_kqv: Option<bool>,
    kv_bytes_per_token: int,
    planned_context: int,
    bundled_mtp_draft: bool,
) -> int {
    if offload_kqv != Some(false) {
        sat64((sat64(kv_bytes_per_token * planned_context) / imax(m.layer_count as int, 1)) * (if bundled_mtp_draft {
            2int
        } else {
            1int
        }))
    } else {
        0
    }
}

/// Layers that fit in the VRAM left after the reserves: by the per-unit
/// costs when known, else by the flat per-layer average.
pub open spec fn estimated_gpu_layers_spec(
    m: LlamaModelMetadata,
    costs: Option<Seq<u64>>,
    available_base: int,
    kv_bytes_per_layer: int,
    total_layers: int,
    bytes_per_layer: int,
) -> int {
    match costs {
        Some(units) => imin(
            sat32(fitted_units_from(units, available_base, kv_bytes_per_layer, imax(m.layer_count as int, 1), 0)),
            total_layers,
        ),
        None => {
            let effective = sat64(bytes_per_layer + kv_bytes_per_layer);
            if available_base == 0 || effective == 0 {
                0
            } else {
                imin(available_base / effective, total_layers)
            }
        },
    }
}

/// Plans how many layers to put on the GPU and at what context, for the
/// KV-cache placement the runtime will actually use. `kv_bytes_per_token`
/// is the KV cache cost of one token.
pub fn plan_smart_gpu_offload(
    metadata: &LlamaModelMetadata,
    costs: Option<&ModelOffloadCosts>,
    available_memory_bytes: Option<u64>,
    available_vram_bytes: Option<u64>,
    requested_context: Option<u32>,
    n_batch: u32,
    resolved_offload_kqv: Option<bool>,
    kv_bytes_per_token: u64,
    flash_attention_policy: FlashAttentionPolicy,
    sidecar_vram_reserve_bytes: u64,
    bundled_mtp_draft: bool,
) -> (plan: SmartGpuOffloadPlan)
    requires
        metadata.max_context_length >= 1,
    ensures
        ({
            let m = *metadata;
            let units = costs_view(costs);
            let total = plan_total_layers_spec(m, units);
            let recommended = recommended_context_spec(m, available_memory_bytes, available_vram_bytes,
                resolved_offload_kqv, kv_bytes_per_token as int);
            let planned = planned_context_spec(m, requested_context, recommended);
            let vram = match available_vram_bytes {
                Some(v) => v as int,
                None => 0,
            };
            let budget = sat64(vram * 9) / 10;
            let runtime = runtime_reserve_spec(m, vram, planned, n_batch as int, flash_attention_policy);
            let per_layer = bytes_per_layer_spec(m);
            let kv_per_layer = kv_bytes_per_layer_spec(m, resolved_offload_kqv, kv_bytes_per_token as int, planned,
                bundled_mtp_draft);
            let base = monus(monus(budget, runtime), sidecar_vram_reserve_bytes as int);
            let estimated = estimated_gpu_layers_spec(m, units, base, kv_per_layer, total, per_layer);
            &&& plan.total_layers == total
            &&& opt_u32_view(plan.recommended_context) == recommended
            &&& plan.planned_context == planned
            &&& plan.estimated_gpu_layers == estimated
            &&& plan.kqv_vram_reserved == (resolved_offload_kqv != Some(false))
            &&& plan.planning_offload_kqv == resolved_offload_kqv
            &&& plan.kv_bytes_per_layer == kv_per_layer
            &&& plan.estimated_kv_bytes == sat64(kv_per_layer * imin(estimated, imax(m.layer_count as int, 1)))
            &&& plan.estimated_sidecar_vram_reserve_bytes == sidecar_vram_reserve_bytes
            &&& plan.estimated_runtime_reserve_bytes == runtime
            &&& plan.effective_vram_budget_bytes == budget
            &&& plan.bytes_per_layer == per_layer
            &&& strictly_decreasing(plan.candidate_gpu_layers@)
            &&& if total == 0 || imin(estimated, total) == 0 {
                plan.candidate_gpu_layers@ == seq![0u32]
            } else {
                forall|y: u32| plan.candidate_gpu_layers@.contains(y) <==> ladder_set(imin(estimated, total)).contains(y as int)
            }
        }),
{
    let total_layers = match costs {
        Some(c) => c.unit_count(),
        None => metadata.offload_layer_count(),
    };
    let recommended_context = compute_recommended_context(
        metadata,
        available_memory_bytes,
        available_vram_bytes,
        resolved_offload_kqv,
        kv_bytes_per_token,
    );
    let wanted = match requested_context {
        Some(v) => v,
        None => match recommended_context {
            Some(v) => v,
            None => metadata.max_context_length,
        },
    };
    let planned_context = if wanted < 1 {
        1
    } else if wanted > metadata.max_context_length {
        metadata.max_context_length
    } else {
        wanted
    };
    let available_vram = match available_vram_bytes {
        Some(v) => v,
        None => 0,
    };
    let effective_vram_budget_bytes = sat_mul_u64(available_vram, 9) / 10;
    let runtime_reserve = estimated_runtime_reserve_bytes(
        metadata,
        available_vram,
        planned_context,
        n_batch,
        flash_attention_policy,
    );
    let model_layers = metadata.model_layer_count();
    let bytes_per_layer = match metadata.model_size_bytes.checked_add(model_layers as u64 - 1) {
        Some(bytes) => bytes / (model_layers as u64),
        None => 0,
    };
    let planning_offload_kqv = resolved_offload_kqv;
    let kqv_vram_reserved = planning_offload_kqv != Some(false);
    let kv_contexts: u64 = if bundled_mtp_draft {
        2
    } else {
        1
    };
    let layer_count = max_u32(metadata.layer_count, 1);
    let kv_bytes_per_layer = if kqv_vram_reserved {
        sat_mul_u64(sat_mul_u64(kv_bytes_per_token, planned_context as u64) / (layer_count as u64), kv_contexts)
    } else {
        0
    };
    let available_base = effective_vram_budget_bytes.saturating_sub(runtime_reserve).saturating_sub(
        sidecar_vram_reserve_bytes,
    );
    let estimated_gpu_layers = match costs {
        Some(c) => min_u32(c.max_units_within(available_base, kv_bytes_per_layer, layer_count), total_layers),
        None => {
            let effective_bytes_per_layer = bytes_per_layer.saturating_add(kv_bytes_per_layer);
            if available_base == 0 || effective_bytes_per_layer == 0 {
                0
            } else {
                let fit = min_u64(available_base / effective_bytes_per_layer, total_layers as u64);
                fit as u32
            }
        },
    };
    let estimated_kv_bytes = sat_mul_u64(kv_bytes_per_layer, min_u32(estimated_gpu_layers, layer_count) as u64);
    SmartGpuOffloadPlan {
        total_layers,
        recommended_context,
        planned_context,
        estimated_gpu_layers,
        candidate_gpu_layers: candidate_gpu_layers(total_layers, estimated_gpu_layers),
        kqv_vram_reserved,
        planning_offload_kqv,
        estimated_kv_bytes,
        kv_bytes_per_layer,
        estimated_sidecar_vram_reserve_bytes: sidecar_vram_reserve_bytes,
        estimated_runtime_reserve_bytes: runtime_reserve,
        effective_vram_budget_bytes,
        bytes_per_layer,
    }
}

// ---------------------------------------------------------------------------
// Multi-GPU distribution
// ---------------------------------------------------------------------------

/// How layers are spread over several GPUs.
#[derive(Clone, Copy, Debug, PartialEq, Eq, Structural)]
pub enum DistributionMode {
    /// Layer counts given per device.
    Manual,
    /// Fill the first device (up to an optional limit), then the next.
    Priority,
    /// In proportion to each device's free VRAM.
    Proportional,
    /// An even split, one layer per device in turn.
    Balanced,
}

pub open spec fn distribution_mode_spec(mode: Seq<char>) -> DistributionMode {
    if mode == "manual"@ {
        DistributionMode::Manual
    } else if mode == "priority"@ {
        DistributionMode::Priority
    } else if mode == "proportional"@ {
        DistributionMode::Proportional
    } else {
        DistributionMode::Balanced
    }
}

/// The strategy a mode name selects; "balanced" and any unknown name give
/// the even split.
pub fn distribution_mode(mode: &str) -> (r: DistributionMode)
    ensures
        r == distribution_mode_spec(mode@),
{
    if crate::text::str_eq(mode, "manual") {
        DistributionMode::Manual
    } else if crate::text::str_eq(mode, "priority") {
        DistributionMode::Priority
    } else if crate::text::str_eq(mode, "proportional") {
        DistributionMode::Proportional
    } else {
        DistributionMode::Balanced
    }
}

/// Layer placement over several GPUs. The tensor split llama.cpp takes is
/// `split_weights` normalised to fractions summing to one.
#[derive(Clone, Debug)]
pub struct MultiGpuLayout {
    pub n_gpu_layers: u32,
    /// Layers per device; left empty when `distribute_by_weights` is set.
    pub per_device_layers: Vec<u32>,
    pub main_gpu: Option<i32>,
    /// What the tensor split is proportional to; empty when nothing is placed.
    pub split_weights: Vec<u64>,
    /// The per-device layers are `n_gpu_layers` spread in proportion to
    /// `split_weights` (largest remainder), computed by the caller.
    pub distribute_by_weights: bool,
}

pub open spec fn sum_u32(s: Seq<u32>) -> int
    decreases s.len(),
{
    if s.len() == 0 {
        0
    } else {
        sum_u32(s.drop_last()) + s.last()
    }
}

/// Sum of `free / per_layer` over the devices.
pub open spec fn feasible_layers(free: Seq<u64>, per_layer: int) -> int
    decreases free.len(),
{
    if free.len() == 0 {
        0
    } else {
        feasible_layers(free.drop_last(), per_layer) + (free.last() as int) / per_layer
    }
}

pub open spec fn widen(s: Seq<u32>) -> Seq<u64> {
    s.map_values(|v: u32| v as u64)
}

pub open spec fn manual_counts(n: int, manual: Option<Seq<u32>>) -> Seq<u32> {
    Seq::new(
        n as nat,
        |i: int|
            match manual {
                Some(m) => if i < m.len() {
                    m[i]
                } else {
                    0u32
                },
                None => 0u32,
            },
    )
}

/// The budget of device `i` in priority mode: the first is held to the
/// limit when one is given.
pub open spec fn priority_budget(free: Seq<u64>, limit: Option<u64>, i: int) -> int {
    if i == 0 {
        match limit {
            Some(l) => imin(l as int, free[0] as int),
            None => free[0] as int,
        }
    } else {
        free[i] as int
    }
}

pub open spec fn priority_cap(free: Seq<u64>, limit: Option<u64>, per_layer: int, i: int, remaining: int) -> int {
    if per_layer == 0 {
        remaining
    } else {
        let c = priority_budget(free, limit, i) / per_layer;
        if c <= u32::MAX {
            c
        } else {
            remaining
        }
    }
}

/// Assignments to the first `k` devices in priority mode, and the layers
/// still unassigned.
pub open spec fn priority_prefix(free: Seq<u64>, limit: Option<u64>, per_layer: int, auto_total: int, k: int) -> (
    Seq<u32>,
    int,
)
    decreases k,
{
    if k <= 0 {
        (Seq::empty(), auto_total)
    } else {
        let prev = priority_prefix(free, limit, per_layer, auto_total, k - 1);
        if prev.1 == 0 {
            (prev.0.push(0), 0)
        } else {
            let a = imin(priority_cap(free, limit, per_layer, k - 1, prev.1), prev.1);
            (prev.0.push(a as u32), prev.1 - a)
        }
    }
}

/// Priority mode: whatever does not fit goes to the last device.
pub open spec fn priority_layers(free: Seq<u64>, limit: Option<u64>, per_layer: int, auto_total: int) -> Seq<u32> {
    let r = priority_prefix(free, limit, per_layer, auto_total, free.len() as int);
    if r.1 > 0 && free.len() > 0 {
        r.0.update(free.len() - 1, (r.0[free.len() - 1] + r.1) as u32)
    } else {
        r.0
    }
}

/// How many layers device `i` can take in balanced mode.
pub open spec fn balanced_caps(free: Seq<u64>, per_layer: int, auto_total: int) -> Seq<u32> {
    Seq::new(
        free.len(),
        |i: int|
            if per_layer == 0 {
                auto_total as u32
            } else if (free[i] as int) / per_layer <= u32::MAX {
                ((free[i] as int) / per_layer) as u32
            } else {
                auto_total as u32
            },
    )
}

/// One round of the balanced split from device `j` on: each device below
/// its capacity takes one more layer while layers remain. Returns the
/// layers, the remaining count and whether any device took a layer.
pub open spec fn balanced_pass(per: Seq<u32>, caps: Seq<u32>, remaining: int, j: int, progressed: bool) -> (
    Seq<u32>,
    int,
    bool,
)
    decreases per.len() - j,
{
    if j < 0 || j >= per.len() || remaining == 0 {
        (per, remaining, progressed)
    } else if per[j] < caps[j] {
        balanced_pass(per.update(j, (per[j] + 1) as u32), caps, remaining - 1, j + 1, true)
    } else {
        balanced_pass(per, caps, remaining, j + 1, progressed)
    }
}

/// Rounds of the balanced split until no layer remains or none fits.
pub open spec fn balanced_rounds(per: Seq<u32>, caps: Seq<u32>, remaining: int) -> Seq<u32>
    decreases remaining,
{
    if remaining <= 0 {
        per
    } else {
        let r = balanced_pass(per, caps, remaining, 0, false);
        if !r.2 || r.1 >= remaining || r.1 < 0 {
            r.0
        } else {
            balanced_rounds(r.0, caps, r.1)
        }
    }
}

pub open spec fn zeros(n: int) -> Seq<u32> {
    Seq::new(n as nat, |i: int| 0u32)
}

/// The layout each mode produces.
pub open spec fn layout_spec(
    mode: DistributionMode,
    free: Seq<u64>,
    total_layers: int,
    bytes_per_layer: int,
    kv_bytes_per_layer: int,
    smart_total_estimate: int,
    manual: Option<Seq<u32>>,
    priority_limit: Option<u64>,
) -> (int, Seq<u32>, Option<i32>, Seq<u64>, bool) {
    let n = free.len() as int;
    let auto_total = imin(smart_total_estimate, total_layers);
    let per_layer = sat64(bytes_per_layer + kv_bytes_per_layer);
    if n == 0 {
        (0, Seq::empty(), None, Seq::empty(), false)
    } else {
        match mode {
            DistributionMode::Manual => {
                let counts = manual_counts(n, manual);
                let total = imin(sum_u32(counts), total_layers);
                (total, counts, None, if total > 0 { widen(counts) } else { Seq::empty() }, false)
            },
            DistributionMode::Priority => {
                let per = priority_layers(free, priority_limit, per_layer, auto_total);
                let total = imin(sum_u32(per), total_layers);
                (total, per, Some(0i32), if total > 0 { widen(per) } else { Seq::empty() }, false)
            },
            DistributionMode::Proportional => {
                let capped = if per_layer == 0 {
                    auto_total
                } else {
                    let f = feasible_layers(free, per_layer);
                    imin(auto_total, if f <= u32::MAX { f } else { auto_total })
                };
                (capped, Seq::empty(), None, if capped > 0 { free } else { Seq::empty() }, true)
            },
            DistributionMode::Balanced => {
                let per = balanced_rounds(zeros(n), balanced_caps(free, per_layer, auto_total), auto_total);
                let total = sum_u32(per);
                (total, per, None, if total > 0 { widen(per) } else { Seq::empty() }, false)
            },
        }
    }
}

pub open spec fn opt_slice_view<'a>(o: Option<&'a [u32]>) -> Option<Seq<u32>> {
    match o {
        Some(s) => Some(s@),
        None => None,
    }
}

proof fn lemma_sum_u32_push(s: Seq<u32>, v: u32)
    ensures
        sum_u32(s.push(v)) == sum_u32(s) + v,
{
    assert(s.push(v).drop_last() =~= s);
}

fn widen_vec(v: &Vec<u32>) -> (r: Vec<u64>)
    ensures
        r@ == widen(v@),
{
    let mut out: Vec<u64> = Vec::new();
    let mut i: usize = 0;
    while i < v.len()
        invariant
            i <= v.len(),
            out@ == widen(v@.take(i as int)),
        decreases v.len() - i,
    {
        out.push(v[i] as u64);
        i += 1;
        assert(widen(v@.take(i as int)) =~= widen(v@.take(i - 1)).push(v@[i - 1] as u64));
    }
    assert(v@.take(v.len() as int) =~= v@);
    out
}

fn sum_u32_vec(v: &Vec<u32>) -> (r: u32)
    requires
        sum_u32(v@) <= u32::MAX,
    ensures
        r == sum_u32(v@),
{
    let mut acc: u32 = 0;
    let mut i: usize = 0;
    while i < v.len()
        invariant
            i <= v.len(),
            sum_u32(v@) <= u32::MAX,
            acc == sum_u32(v@.take(i as int)),
        decreases v.len() - i,
    {
        proof {
            assert(v@.take(i + 1) =~= v@.take(i as int).push(v@[i as int]));
            lemma_sum_u32_push(v@.take(i as int), v@[i as int]);
            lemma_sum_u32_prefix(v@, i + 1);
        }
        acc = acc + v[i];
        i += 1;
    }
    assert(v@.take(v.len() as int) =~= v@);
    acc
}

proof fn lemma_sum_u32_prefix(s: Seq<u32>, k: int)
    requires
        0 <= k <= s.len(),
    ensures
        sum_u32(s.take(k)) <= sum_u32(s),
    decreases s.len() - k,
{
    if k < s.len() {
        lemma_sum_u32_prefix(s, k + 1);
        assert(s.take(k + 1) =~= s.take(k).push(s[k]));
        lemma_sum_u32_push(s.take(k), s[k]);
    } else {
        assert(s.take(k) =~= s);
    }
}

proof fn lemma_sum_u32_update(s: Seq<u32>, j: int, v: u32)
    requires
        0 <= j < s.len(),
    ensures
        sum_u32(s.update(j, v)) == sum_u32(s) - s[j] + v,
    decreases s.len(),
{
    let t = s.update(j, v);
    if j == s.len() - 1 {
        assert(t.drop_last() =~= s.drop_last());
    } else {
        assert(t.drop_last() =~= s.drop_last().update(j, v));
        lemma_sum_u32_update(s.drop_last(), j, v);
    }
}

proof fn lemma_sum_u32_elem(s: Seq<u32>, j: int)
    requires
        0 <= j < s.len(),
    ensures
        s[j] <= sum_u32(s),
    decreases s.len(),
{
    lemma_sum_u32_nonneg(s.drop_last());
    if j < s.len() - 1 {
        lemma_sum_u32_elem(s.drop_last(), j);
    }
}

proof fn lemma_sum_u32_nonneg(s: Seq<u32>)
    ensures
        sum_u32(s) >= 0,
    decreases s.len(),
{
    if s.len() > 0 {
        lemma_sum_u32_nonneg(s.drop_last());
    }
}

proof fn lemma_sum_zeros(n: int)
    requires
        n >= 0,
    ensures
        sum_u32(zeros(n)) == 0,
    decreases n,
{
    if n > 0 {
        assert(zeros(n).drop_last() =~= zeros(n - 1));
        lemma_sum_zeros(n - 1);
    }
}

fn zeros_vec(n: usize) -> (r: Vec<u32>)
    ensures
        r@ == zeros(n as int),
{
    let mut v: Vec<u32> = Vec::new();
    let mut i: usize = 0;
    while i < n
        invariant
            i <= n,
            v@ == zeros(i as int),
        decreases n - i,
    {
        v.push(0);
        i += 1;
        assert(v@ =~= zeros(i as int));
    }
    v
}

fn priority_layers_exec(free: &[u64], limit: Option<u64>, per_layer: u64, auto_total: u32) -> (r: Vec<u32>)
    requires
        free.len() > 0,
    ensures
        r@ == priority_layers(free@, limit, per_layer as int, auto_total as int),
        sum_u32(r@) == auto_total,
{
    let n = free.len();
    let mut per: Vec<u32> = Vec::new();
    let mut remaining: u32 = auto_total;
    let mut i: usize = 0;
    while i < n
        invariant
            i <= n,
            n == free.len(),
            (per@, remaining as int) == priority_prefix(free@, limit, per_layer as int, auto_total as int, i as int),
            sum_u32(per@) + remaining == auto_total,
            per@.len() == i,
        decreases n - i,
    {
        proof {
            lemma_sum_u32_push(per@, 0);
        }
        if remaining == 0 {
            per.push(0);
        } else {
            let budget: u64 = if i == 0 {
                match limit {
                    Some(lim) => min_u64(lim, free[0]),
                    None => free[0],
                }
            } else {
                free[i]
            };
            let cap: u32 = if per_layer == 0 {
                remaining
            } else {
                u64_to_u32_or(budget / per_layer, remaining)
            };
            let assigned = min_u32(cap, remaining);
            proof {
                lemma_sum_u32_push(per@, assigned);
            }
            per.push(assigned);
            remaining = remaining - assigned;
        }
        i += 1;
    }
    if remaining > 0 {
        proof {
            lemma_sum_u32_elem(per@, n - 1);
            lemma_sum_u32_update(per@, n - 1, (per@[n - 1] + remaining) as u32);
        }
        let last = per[n - 1];
        per.set(n - 1, last + remaining);
    }
    per
}

fn balanced_layers_exec(free: &[u64], per_layer: u64, auto_total: u32) -> (r: Vec<u32>)
    ensures
        r@ == balanced_rounds(zeros(free.len() as int), balanced_caps(free@, per_layer as int, auto_total as int), auto_total as int),
        sum_u32(r@) <= auto_total,
{
    let n = free.len();
    let mut caps: Vec<u32> = Vec::new();
    let mut k: usize = 0;
    while k < n
        invariant
            k <= n,
            n == free.len(),
            caps@ == balanced_caps(free@, per_layer as int, auto_total as int).take(k as int),
        decreases n - k,
    {
        let c = if per_layer == 0 {
            auto_total
        } else {
            u64_to_u32_or(free[k] / per_layer, auto_total)
        };
        caps.push(c);
        k += 1;
        assert(caps@ =~= balanced_caps(free@, per_layer as int, auto_total as int).take(k as int));
    }
    let ghost all_caps = balanced_caps(free@, per_layer as int, auto_total as int);
    assert(caps@ =~= all_caps);
    let mut per = zeros_vec(n);
    proof {
        lemma_sum_zeros(n as int);
    }
    let mut remaining: u32 = auto_total;
    while remaining > 0
        invariant_except_break
            balanced_rounds(zeros(n as int), all_caps, auto_total as int) == balanced_rounds(per@, all_caps, remaining as int),
        invariant
            per@.len() == n,
            caps@ == all_caps,
            all_caps.len() == n,
            sum_u32(per@) + remaining == auto_total,
        ensures
            balanced_rounds(zeros(n as int), all_caps, auto_total as int) == per@,
        decreases remaining,
    {
        let ghost per0 = per@;
        let ghost rem0 = remaining as int;
        let mut progressed = false;
        let mut j: usize = 0;
        while j < n && remaining > 0
            invariant
                j <= n,
                per@.len() == n,
                caps@ == all_caps,
                all_caps.len() == n,
                sum_u32(per@) + remaining == auto_total,
                remaining <= rem0,
                progressed ==> remaining < rem0,
                balanced_pass(per0, all_caps, rem0, 0, false) == balanced_pass(per@, all_caps, remaining as int, j as int, progressed),
            decreases n - j,
        {
            if per[j] < caps[j] {
                proof {
                    lemma_sum_u32_update(per@, j as int, (per@[j as int] + 1) as u32);
                }
                let v = per[j];
                per.set(j, v + 1);
                remaining = remaining - 1;
                progressed = true;
            }
            j += 1;
        }
        if !progressed {
            break;
        }
    }
    proof {
        lemma_sum_u32_nonneg(per@);
    }
    per
}

proof fn lemma_feasible_prefix(free: Seq<u64>, per_layer: int, k: int)
    requires
        0 <= k <= free.len(),
        per_layer > 0,
    ensures
        feasible_layers(free.take(k), per_layer) <= feasible_layers(free, per_layer),
        feasible_layers(free.take(k), per_layer) >= 0,
    decreases free.len() - k,
{
    if k < free.len() {
        lemma_feasible_prefix(free, per_layer, k + 1);
        assert(free.take(k + 1).drop_last() =~= free.take(k));
        lemma_feasible_nonneg(free.take(k), per_layer);
    } else {
        assert(free.take(k) =~= free);
        lemma_feasible_nonneg(free, per_layer);
    }
}

proof fn lemma_feasible_nonneg(free: Seq<u64>, per_layer: int)
    requires
        per_layer > 0,
    ensures
        feasible_layers(free, per_layer) >= 0,
    decreases free.len(),
{
    if free.len() > 0 {
        lemma_feasible_nonneg(free.drop_last(), per_layer);
    }
}

/// Translates a distribution strategy into concrete llama.cpp placement.
/// `device_free_vram` and `manual` are aligned to the selected-device order.
pub fn plan_multi_gpu_distribution(
    mode: &str,
    device_free_vram: &[u64],
    total_layers: u32,
    bytes_per_layer: u64,
    kv_bytes_per_layer: u64,
    smart_total_estimate: u32,
    manual: Option<&[u32]>,
    priority_limit_bytes: Option<u64>,
) -> (r: MultiGpuLayout)
    requires
        distribution_mode_spec(mode@) == DistributionMode::Manual ==> sum_u32(
            manual_counts(device_free_vram.len() as int, opt_slice_view(manual)),
        ) <= u32::MAX,
        distribution_mode_spec(mode@) == DistributionMode::Proportional && sat64(bytes_per_layer + kv_bytes_per_layer) > 0
            ==> feasible_layers(device_free_vram@, sat64(bytes_per_layer + kv_bytes_per_layer)) <= u64::MAX,
    ensures
        (r.n_gpu_layers as int, r.per_device_layers@, r.main_gpu, r.split_weights@, r.distribute_by_weights)
            == layout_spec(
            distribution_mode_spec(mode@),
            device_free_vram@,
            total_layers as int,
            bytes_per_layer as int,
            kv_bytes_per_layer as int,
            smart_total_estimate as int,
            opt_slice_view(manual),
            priority_limit_bytes,
        ),
{
    let n = device_free_vram.len();
    if n == 0 {
        return MultiGpuLayout {
            n_gpu_layers: 0,
            per_device_layers: Vec::new(),
            main_gpu: None,
            split_weights: Vec::new(),
            distribute_by_weights: false,
        };
    }
    let auto_total = min_u32(smart_total_estimate, total_layers);
    let effective_per_layer = bytes_per_layer.saturating_add(kv_bytes_per_layer);
    match distribution_mode(mode) {
        DistributionMode::Manual => {
            let mut counts: Vec<u32> = Vec::new();
            let mut i: usize = 0;
            while i < n
                invariant
                    i <= n,
                    n == device_free_vram.len(),
                    counts@ == manual_counts(n as int, opt_slice_view(manual)).take(i as int),
                decreases n - i,
            {
                let c = match manual {
                    Some(m) => if i < m.len() {
                        m[i]
                    } else {
                        0
                    },
                    None => 0,
                };
                counts.push(c);
                i += 1;
                assert(counts@ =~= manual_counts(n as int, opt_slice_view(manual)).take(i as int));
            }
            assert(counts@ =~= manual_counts(n as int, opt_slice_view(manual)));
            let total = min_u32(sum_u32_vec(&counts), total_layers);
            let split_weights = if total > 0 {
                widen_vec(&counts)
            } else {
                Vec::new()
            };
            MultiGpuLayout {
                n_gpu_layers: total,
                per_device_layers: counts,
                main_gpu: None,
                split_weights,
                distribute_by_weights: false,
            }
        },
        DistributionMode::Priority => {
            let per = priority_layers_exec(device_free_vram, priority_limit_bytes, effective_per_layer, auto_total);
            let total = min_u32(sum_u32_vec(&per), total_layers);
            let split_weights = if total > 0 {
                widen_vec(&per)
            } else {
                Vec::new()
            };
            MultiGpuLayout {
                n_gpu_layers: total,
                per_device_layers: per,
                main_gpu: Some(0),
                split_weights,
                distribute_by_weights: false,
            }
        },
        DistributionMode::Proportional => {
            let capped_total = if effective_per_layer == 0 {
                auto_total
            } else {
                let mut feasible: u64 = 0;
                let mut i: usize = 0;
                while i < n
                    invariant
                        i <= n,
                        n == device_free_vram.len(),
                        effective_per_layer > 0,
                        feasible_layers(device_free_vram@, effective_per_layer as int) <= u64::MAX,
                        feasible == feasible_layers(device_free_vram@.take(i as int), effective_per_layer as int),
                    decreases n - i,
                {
                    proof {
                        assert(device_free_vram@.take(i + 1).drop_last() =~= device_free_vram@.take(i as int));
                        lemma_feasible_prefix(device_free_vram@, effective_per_layer as int, i + 1);
                    }
                    feasible = feasible + device_free_vram[i] / effective_per_layer;
                    i += 1;
                }
                assert(device_free_vram@.take(n as int) =~= device_free_vram@);
                min_u32(auto_total, u64_to_u32_or(feasible, auto_total))
            };
            let mut split_weights: Vec<u64> = Vec::new();
            if capped_total > 0 {
                let mut i: usize = 0;
                while i < n
                    invariant
                        i <= n,
                        n == device_free_vram.len(),
                        split_weights@ == device_free_vram@.take(i as int),
                    decreases n - i,
                {
                    split_weights.push(device_free_vram[i]);
                    i += 1;
                    assert(split_weights@ =~= device_free_vram@.take(i as int));
                }
                assert(device_free_vram@.take(n as int) =~= device_free_vram@);
            }
            MultiGpuLayout {
                n_gpu_layers: capped_total,
                per_device_layers: Vec::new(),
                main_gpu: None,
                split_weights,
                distribute_by_weights: true,
            }
        },
        DistributionMode::Balanced => {
            let per = balanced_layers_exec(device_free_vram, effective_per_layer, auto_total);
            let total = sum_u32_vec(&per);
            let split_weights = if total > 0 {
                widen_vec(&per)
            } else {
                Vec::new()
            };
            MultiGpuLayout {
                n_gpu_layers: total,
                per_device_layers: per,
                main_gpu: None,
                split_weights,
                distribute_by_weights: false,
            }
        },
    }
}

} // verus!
verus! {

proof fn lemma_priority_prefix(free: Seq<u64>, limit: Option<u64>, per_layer: int, auto_total: int, k: int)
    requires
        0 <= k <= free.len(),
        per_layer >= 0,
        0 <= auto_total <= u32::MAX,
    ensures
        priority_prefix(free, limit, per_layer, auto_total, k).0.len() == k,
        0 <= priority_prefix(free, limit, per_layer, auto_total, k).1 <= auto_total,
        sum_u32(priority_prefix(free, limit, per_layer, auto_total, k).0) + priority_prefix(
            free,
            limit,
            per_layer,
            auto_total,
            k,
        ).1 == auto_total,
    decreases k,
{
    if k > 0 {
        lemma_priority_prefix(free, limit, per_layer, auto_total, k - 1);
        let prev = priority_prefix(free, limit, per_layer, auto_total, k - 1);
        let now = priority_prefix(free, limit, per_layer, auto_total, k);
        assert(now.0.drop_last() =~= prev.0);
        if prev.1 != 0 {
            let cap = priority_cap(free, limit, per_layer, k - 1, prev.1);
            assert(cap >= 0) by {
                if per_layer > 0 {
                    let b = priority_budget(free, limit, k - 1);
                    assert(b >= 0);
                    assert(b / per_layer >= 0) by (nonlinear_arith)
                        requires
                            b >= 0,
                            per_layer > 0,
                    ;
                }
            }
        }
    }
}

/// Priority mode places every layer it is asked to place: what does not fit
/// on the earlier devices goes to the last one.
pub proof fn law_priority_places_every_layer(
    free: Seq<u64>,
    limit: Option<u64>,
    per_layer: int,
    auto_total: int,
)
    requires
        free.len() > 0,
        per_layer >= 0,
        0 <= auto_total <= u32::MAX,
    ensures
        priority_layers(free, limit, per_layer, auto_total).len() == free.len(),
        sum_u32(priority_layers(free, limit, per_layer, auto_total)) == auto_total,
{
    let n = free.len() as int;
    lemma_priority_prefix(free, limit, per_layer, auto_total, n);
    let r = priority_prefix(free, limit, per_layer, auto_total, n);
    if r.1 > 0 {
        lemma_sum_u32_nonneg(r.0);
        lemma_sum_u32_parts_bound(r.0, n - 1);
        lemma_sum_u32_update(r.0, n - 1, (r.0[n - 1] + r.1) as u32);
    }
}

proof fn lemma_sum_u32_parts_bound(s: Seq<u32>, j: int)
    requires
        0 <= j < s.len(),
    ensures
        s[j] <= sum_u32(s),
    decreases s.len(),
{
    lemma_sum_u32_nonneg(s.drop_last());
    if j < s.len() - 1 {
        lemma_sum_u32_parts_bound(s.drop_last(), j);
    }
}

pub open spec fn within_caps(per: Seq<u32>, caps: Seq<u32>) -> bool {
    per.len() == caps.len() && forall|i: int| 0 <= i < per.len() ==> per[i] <= caps[i]
}

proof fn lemma_balanced_pass(per: Seq<u32>, caps: Seq<u32>, remaining: int, j: int, progressed: bool)
    requires
        within_caps(per, caps),
        remaining >= 0,
        0 <= j <= per.len(),
        !progressed ==> forall|i: int| 0 <= i < j ==> per[i] == caps[i],
    ensures
        within_caps(balanced_pass(per, caps, remaining, j, progressed).0, caps),
        sum_u32(balanced_pass(per, caps, remaining, j, progressed).0) + balanced_pass(
            per,
            caps,
            remaining,
            j,
            progressed,
        ).1 == sum_u32(per) + remaining,
        0 <= balanced_pass(per, caps, remaining, j, progressed).1 <= remaining,
        progressed ==> balanced_pass(per, caps, remaining, j, progressed).2,
        balanced_pass(per, caps, remaining, j, progressed).2 ==> balanced_pass(
            per,
            caps,
            remaining,
            j,
            progressed,
        ).1 < remaining || progressed,
        !balanced_pass(per, caps, remaining, j, progressed).2 && remaining > 0 ==> forall|i: int|
            0 <= i < per.len() ==> #[trigger] per[i] == caps[i] && balanced_pass(
                per,
                caps,
                remaining,
                j,
                progressed,
            ).0 == per,
    decreases per.len() - j,
{
    if j < per.len() && remaining != 0 {
        if per[j] < caps[j] {
            let next = per.update(j, (per[j] + 1) as u32);
            lemma_sum_u32_update(per, j, (per[j] + 1) as u32);
            lemma_balanced_pass(next, caps, remaining - 1, j + 1, true);
        } else {
            lemma_balanced_pass(per, caps, remaining, j + 1, progressed);
        }
    }
}

proof fn lemma_balanced_rounds(per: Seq<u32>, caps: Seq<u32>, remaining: int)
    requires
        within_caps(per, caps),
        remaining >= 0,
    ensures
        within_caps(balanced_rounds(per, caps, remaining), caps),
        sum_u32(balanced_rounds(per, caps, remaining)) <= sum_u32(per) + remaining,
        sum_u32(balanced_rounds(per, caps, remaining)) == sum_u32(per) + remaining || forall|i: int|
            0 <= i < per.len() ==> #[trigger] balanced_rounds(per, caps, remaining)[i] == caps[i],
    decreases remaining,
{
    if remaining > 0 {
        lemma_balanced_pass(per, caps, remaining, 0, false);
        let r = balanced_pass(per, caps, remaining, 0, false);
        if !r.2 || r.1 >= remaining || r.1 < 0 {
        } else {
            lemma_balanced_rounds(r.0, caps, r.1);
        }
    }
}

/// Balanced mode never gives a device more layers than fit in its free
/// memory, and places every layer unless every device is full.
pub proof fn law_balanced_respects_capacity(free: Seq<u64>, per_layer: int, auto_total: int)
    requires
        0 <= auto_total <= u32::MAX,
    ensures
        within_caps(
            balanced_rounds(zeros(free.len() as int), balanced_caps(free, per_layer, auto_total), auto_total),
            balanced_caps(free, per_layer, auto_total),
        ),
        sum_u32(balanced_rounds(zeros(free.len() as int), balanced_caps(free, per_layer, auto_total), auto_total))
            <= auto_total,
        sum_u32(balanced_rounds(zeros(free.len() as int), balanced_caps(free, per_layer, auto_total), auto_total))
            == auto_total || forall|i: int|
            0 <= i < free.len() ==> #[trigger] balanced_rounds(
                zeros(free.len() as int),
                balanced_caps(free, per_layer, auto_total),
                auto_total,
            )[i] == balanced_caps(free, per_layer, auto_total)[i],
{
    let caps = balanced_caps(free, per_layer, auto_total);
    lemma_sum_zeros(free.len() as int);
    lemma_balanced_rounds(zeros(free.len() as int), caps, auto_total);
}

} // verus!
verus! {

/// Every device holds its capacity or `r` layers, whichever is less.
pub open spec fn level_fill(per: Seq<u32>, caps: Seq<u32>, r: int) -> bool {
    per.len() == caps.len() && forall|i: int| 0 <= i < per.len() ==> #[trigger] per[i] == imin(caps[i] as int, r)
}

/// Every device holds between `min(capacity, r)` and `min(capacity, r + 1)`.
pub open spec fn level_band(per: Seq<u32>, caps: Seq<u32>, r: int) -> bool {
    per.len() == caps.len() && forall|i: int|
        0 <= i < per.len() ==> imin(caps[i] as int, r) <= #[trigger] per[i] <= imin(caps[i] as int, r + 1)
}

proof fn lemma_pass_level(per: Seq<u32>, caps: Seq<u32>, remaining: int, j: int, progressed: bool, r: int)
    requires
        per.len() == caps.len(),
        0 <= j <= per.len(),
        remaining >= 0,
        r >= 0,
        forall|i: int| 0 <= i < j ==> #[trigger] per[i] == imin(caps[i] as int, r + 1),
        forall|i: int| j <= i < per.len() ==> #[trigger] per[i] == imin(caps[i] as int, r),
    ensures
        level_band(balanced_pass(per, caps, remaining, j, progressed).0, caps, r),
        balanced_pass(per, caps, remaining, j, progressed).1 > 0 ==> level_fill(
            balanced_pass(per, caps, remaining, j, progressed).0,
            caps,
            r + 1,
        ),
    decreases per.len() - j,
{
    if j < per.len() && remaining != 0 {
        if per[j] < caps[j] {
            let next = per.update(j, (per[j] + 1) as u32);
            lemma_pass_level(next, caps, remaining - 1, j + 1, true, r);
        } else {
            lemma_pass_level(per, caps, remaining, j + 1, progressed, r);
        }
    }
}

proof fn lemma_rounds_level(per: Seq<u32>, caps: Seq<u32>, remaining: int, r: int) -> (q: int)
    requires
        level_fill(per, caps, r),
        remaining >= 0,
        r >= 0,
    ensures
        q >= 0,
        level_band(balanced_rounds(per, caps, remaining), caps, q),
    decreases remaining,
{
    if remaining <= 0 {
        assert(balanced_rounds(per, caps, remaining) == per);
        r
    } else {
        lemma_pass_level(per, caps, remaining, 0, false, r);
        let p = balanced_pass(per, caps, remaining, 0, false);
        if !p.2 || p.1 >= remaining || p.1 < 0 {
            assert(balanced_rounds(per, caps, remaining) == p.0);
            r
        } else if p.1 > 0 {
            assert(balanced_rounds(per, caps, remaining) == balanced_rounds(p.0, caps, p.1));
            lemma_rounds_level(p.0, caps, p.1, r + 1)
        } else {
            assert(balanced_rounds(p.0, caps, p.1) == p.0);
            assert(balanced_rounds(per, caps, remaining) == p.0);
            r
        }
    }
}

/// Balanced mode spreads the layers evenly: a device below its capacity
/// holds at least as many layers as any other device, less one.
pub proof fn law_balanced_spreads_evenly(free: Seq<u64>, per_layer: int, auto_total: int)
    requires
        0 <= auto_total <= u32::MAX,
    ensures
        ({
            let caps = balanced_caps(free, per_layer, auto_total);
            let per = balanced_rounds(zeros(free.len() as int), caps, auto_total);
            forall|i: int, j: int|
                0 <= i < free.len() && 0 <= j < free.len() && #[trigger] per[i] < caps[i] ==> per[i]
                    + 1 >= #[trigger] per[j]
        }),
{
    let caps = balanced_caps(free, per_layer, auto_total);
    let z = zeros(free.len() as int);
    assert(level_fill(z, caps, 0));
    let q = lemma_rounds_level(z, caps, auto_total, 0);
    let per = balanced_rounds(z, caps, auto_total);
    assert forall|i: int, j: int|
        0 <= i < free.len() && 0 <= j < free.len() && #[trigger] per[i] < caps[i] implies per[i] + 1
        >= #[trigger] per[j] by {
        assert(imin(caps[i] as int, q) <= per[i]);
        assert(per[j] <= imin(caps[j] as int, q + 1));
    }
}

} // verus!
verus! {

proof fn lemma_last_units_sum_monotone(s: Seq<u64>, a: int, b: int)
    requires
        0 <= a <= b <= s.len(),
    ensures
        seq_sum(s.skip(s.len() - a)) <= seq_sum(s.skip(s.len() - b)),
    decreases b - a,
{
    if a < b {
        lemma_last_units_sum_monotone(s, a, b - 1);
        lemma_seq_sum_skip_step(s, b);
    }
}

/// Offloading more layers never puts fewer weight bytes on the GPU; no
/// layer means no bytes, and counts beyond the units weigh as all of them.
pub proof fn law_gpu_bytes_grow_with_layers(units: Seq<u64>, g1: int, g2: int)
    requires
        0 <= g1 <= g2,
    ensures
        gpu_bytes_spec(units, g1) <= gpu_bytes_spec(units, g2),
        gpu_bytes_spec(units, g2) == gpu_bytes_spec(units, imin(g2, units.len() as int)),
        gpu_bytes_spec(units, 0) == 0,
{
    let n = units.len() as int;
    lemma_last_units_sum_monotone(units, imin(g1, n), imin(g2, n));
    assert(units.skip(n) =~= Seq::<u64>::empty());
}

} // verus!
verus! {

proof fn lemma_units_cost_kv_monotone(units: Seq<u64>, n: int, kv1: int, kv2: int, kv_count: int)
    requires
        0 <= kv1 <= kv2,
    ensures
        units_cost(units, n, kv1, kv_count) <= units_cost(units, n, kv2, kv_count),
    decreases n,
{
    if n > 0 {
        lemma_units_cost_kv_monotone(units, n - 1, kv1, kv2, kv_count);
    }
}

/// Charging more KV bytes per layer never lets more layers fit.
proof fn lemma_estimated_layers_antitone(
    m: LlamaModelMetadata,
    costs: Option<Seq<u64>>,
    base: int,
    kv1: int,
    kv2: int,
    total: int,
    per_layer: int,
)
    requires
        base >= 0,
        per_layer >= 0,
        0 <= kv1 <= kv2,
        kv1 == 0 ==> kv2 == 0,
    ensures
        estimated_gpu_layers_spec(m, costs, base, kv2, total, per_layer) <= estimated_gpu_layers_spec(
            m,
            costs,
            base,
            kv1,
            total,
            per_layer,
        ),
{
    match costs {
        Some(units) => {
            let c = imax(m.layer_count as int, 1);
            lemma_fitted_facts(units, base, kv1, c, 0);
            lemma_fitted_facts(units, base, kv2, c, 0);
            let f1 = fitted_units_from(units, base, kv1, c, 0);
            let f2 = fitted_units_from(units, base, kv2, c, 0);
            if f2 > f1 {
                lemma_units_cost_monotone(units, f1 + 1, f2, kv1, c);
                lemma_units_cost_kv_monotone(units, f2, kv1, kv2, c);
                assert(sat64(units_cost(units, f1 + 1, kv1, c)) <= sat64(units_cost(units, f2, kv2, c)));
                assert(false);
            }
        },
        None => {
            let e1 = sat64(per_layer + kv1);
            let e2 = sat64(per_layer + kv2);
            if base != 0 && e1 != 0 && e2 != 0 {
                assert(base / e2 <= base / e1) by (nonlinear_arith)
                    requires
                        base >= 0,
                        0 < e1 <= e2,
                ;
            }
        },
    }
}

/// Planning for a bundled multi-token-prediction draft doubles the KV bytes
/// charged per GPU layer (saturating) and never raises the estimated GPU
/// layer count; with the KV cache kept off the GPU no KV bytes are charged.
pub proof fn law_bundled_draft_never_raises_layers(
    m: LlamaModelMetadata,
    costs: Option<Seq<u64>>,
    offload_kqv: Option<bool>,
    kv_bytes_per_token: u64,
    planned_context: u32,
    base: int,
    total: int,
    per_layer: int,
)
    requires
        base >= 0,
        per_layer >= 0,
    ensures
        ({
            let kv1 = kv_bytes_per_layer_spec(m, offload_kqv, kv_bytes_per_token as int, planned_context as int, false);
            let kv2 = kv_bytes_per_layer_spec(m, offload_kqv, kv_bytes_per_token as int, planned_context as int, true);
            &&& kv2 == sat64(kv1 * 2)
            &&& offload_kqv == Some(false) ==> kv1 == 0
            &&& estimated_gpu_layers_spec(m, costs, base, kv2, total, per_layer)
                <= estimated_gpu_layers_spec(m, costs, base, kv1, total, per_layer)
        }),
{
    let kv1 = kv_bytes_per_layer_spec(m, offload_kqv, kv_bytes_per_token as int, planned_context as int, false);
    let kv2 = kv_bytes_per_layer_spec(m, offload_kqv, kv_bytes_per_token as int, planned_context as int, true);
    if offload_kqv != Some(false) {
        let x = sat64(kv_bytes_per_token as int * planned_context as int);
        let l = imax(m.layer_count as int, 1);
        assert(x >= 0) by (nonlinear_arith)
            requires
                x == sat64(kv_bytes_per_token as int * planned_context as int),
                kv_bytes_per_token >= 0,
                planned_context >= 0,
        ;
        assert(0 <= x / l <= x) by (nonlinear_arith)
            requires
                x >= 0,
                l >= 1,
        ;
    }
    lemma_estimated_layers_antitone(m, costs, base, kv1, kv2, total, per_layer);
}

} // verus!
verus! {

/// Unless the KV cache is kept off the GPU (`Some(false)`), the plan
/// charges every GPU layer its share of the KV cache for the planned
/// context: the bytes for all tokens spread over the model's blocks, twice
/// over for a bundled draft. Leaving the choice to llama.cpp (`None`)
/// costs VRAM like `Some(true)`, as llama.cpp's default offloads the cache.
pub proof fn law_kv_cache_charged_unless_kept_off_gpu(
    m: LlamaModelMetadata,
    offload_kqv: Option<bool>,
    kv_bytes_per_token: u64,
    planned_context: u32,
    bundled_mtp_draft: bool,
)
    ensures
        offload_kqv != Some(false) ==> kv_bytes_per_layer_spec(
            m,
            offload_kqv,
            kv_bytes_per_token as int,
            planned_context as int,
            bundled_mtp_draft,
        ) == sat64(
            (sat64(kv_bytes_per_token * planned_context) / (if m.layer_count >= 1 {
                m.layer_count as int
            } else {
                1int
            })) * (if bundled_mtp_draft {
                2int
            } else {
                1int
            }),
        ),
        kv_bytes_per_layer_spec(
            m,
            None,
            kv_bytes_per_token as int,
            planned_context as int,
            bundled_mtp_draft,
        ) == kv_bytes_per_layer_spec(
            m,
            Some(true),
            kv_bytes_per_token as int,
            planned_context as int,
            bundled_mtp_draft,
        ),
        offload_kqv == Some(false) ==> kv_bytes_per_layer_spec(
            m,
            offload_kqv,
            kv_bytes_per_token as int,
            planned_context as int,
            bundled_mtp_draft,
        ) == 0,
{
}

/// In balanced mode no device is given more layers than its free VRAM holds
/// at the weight and KV bytes of a layer together.
pub proof fn law_balanced_fits_free_vram(
    free: Seq<u64>,
    total_layers: int,
    bytes_per_layer: u64,
    kv_bytes_per_layer: u64,
    smart_total_estimate: int,
)
    requires
        0 <= smart_total_estimate <= u32::MAX,
        0 <= total_layers <= u32::MAX,
        sat64(bytes_per_layer + kv_bytes_per_layer) > 0,
    ensures
        ({
            let per = layout_spec(
                DistributionMode::Balanced,
                free,
                total_layers,
                bytes_per_layer as int,
                kv_bytes_per_layer as int,
                smart_total_estimate,
                None,
                None,
            ).1;
            let e = if bytes_per_layer + kv_bytes_per_layer > u64::MAX {
                u64::MAX as int
            } else {
                bytes_per_layer + kv_bytes_per_layer
            };
            per.len() == free.len() && forall|i: int|
                0 <= i < free.len() ==> #[trigger] per[i] <= (free[i] as int) / e && per[i] * e <= free[i]
        }),
{
    if free.len() > 0 {
        let auto_total = imin(smart_total_estimate, total_layers);
        let e = sat64(bytes_per_layer + kv_bytes_per_layer);
        let caps = balanced_caps(free, e, auto_total);
        let per = balanced_rounds(zeros(free.len() as int), caps, auto_total);
        law_balanced_respects_capacity(free, e, auto_total);
        assert forall|i: int| 0 <= i < free.len() implies #[trigger] per[i] <= (free[i] as int) / e && per[i] * e
            <= free[i] by {
            assert(per[i] <= caps[i]);
            if (free[i] as int) / e > u32::MAX {
                lemma_sum_u32_parts_bound(per, i);
            }
            let q = (free[i] as int) / e;
            let p = per[i] as int;
            assert(p * e <= free[i]) by (nonlinear_arith)
                requires
                    p <= q,
                    q == (free[i] as int) / e,
                    e > 0,
                    p >= 0,
            ;
        }
    }
}

proof fn lemma_pro_rata_gpu(size: int, g: int, total: int)
    requires
        0 <= size <= u64::MAX,
        0 <= g <= total,
        total >= 1,
    ensures
        0 <= sat64(size * g) / total <= size,
{
    assert(0 <= size * g <= size * total) by (nonlinear_arith)
        requires
            0 <= g <= total,
            size >= 0,
    ;
    assert(sat64(size * g) <= size * total);
    assert(0 <= sat64(size * g) / total <= size) by (nonlinear_arith)
        requires
            0 <= sat64(size * g) <= size * total,
            total >= 1,
    ;
}

proof fn lemma_pro_rata_monotone(size: int, g1: int, g2: int, total: int)
    requires
        0 <= size,
        0 <= g1 <= g2,
        total >= 1,
    ensures
        sat64(size * g1) / total <= sat64(size * g2) / total,
{
    assert(size * g1 <= size * g2) by (nonlinear_arith)
        requires
            0 <= g1 <= g2,
            size >= 0,
    ;
    let a = sat64(size * g1);
    let b = sat64(size * g2);
    assert(a <= b);
    assert(a / total <= b / total) by (nonlinear_arith)
        requires
            a <= b,
            total >= 1,
    ;
}

proof fn lemma_offload_count_positive(m: LlamaModelMetadata)
    ensures
        offload_layer_count_spec(m) >= 2,
{
}

/// The bytes left on the CPU are the model's size less the bytes moved to
/// the GPU, which never exceed it.
proof fn lemma_cpu_bytes(m: LlamaModelMetadata, costs: Option<Seq<u64>>, g: int)
    requires
        g >= 0,
    ensures
        weight_split_spec(m, costs, g).0 == m.model_size_bytes - imin(
            weight_split_spec(m, costs, g).1,
            m.model_size_bytes as int,
        ),
{
    if costs is None {
        let total = offload_layer_count_spec(m);
        lemma_offload_count_positive(m);
        lemma_pro_rata_gpu(m.model_size_bytes as int, imin(g, total), total);
    } else {
        let units = costs->0;
        lemma_gpu_bytes_nonneg(units, g);
    }
}

proof fn lemma_gpu_bytes_nonneg(units: Seq<u64>, g: int)
    requires
        g >= 0,
    ensures
        gpu_bytes_spec(units, g) >= 0,
{
    law_gpu_bytes_grow_with_layers(units, 0, g);
}

proof fn lemma_gpu_split_monotone(m: LlamaModelMetadata, costs: Option<Seq<u64>>, g1: int, g2: int)
    requires
        0 <= g1 <= g2,
    ensures
        weight_split_spec(m, costs, g1).1 <= weight_split_spec(m, costs, g2).1,
{
    match costs {
        Some(units) => {
            law_gpu_bytes_grow_with_layers(units, g1, g2);
        },
        None => {
            let total = offload_layer_count_spec(m);
            lemma_offload_count_positive(m);
            lemma_pro_rata_monotone(m.model_size_bytes as int, imin(g1, total), imin(g2, total), total);
        },
    }
}

/// With the KV cache in host memory, the recommended context is what the
/// host memory left after the weights kept on the CPU (the model's size
/// less what the GPU layers take) and the reserve holds, capped by the
/// model's training context; so it never shrinks as more layers move to
/// the GPU.
pub proof fn law_host_context_counts_cpu_weights_only(
    m: LlamaModelMetadata,
    costs: Option<Seq<u64>>,
    available_memory: u64,
    available_vram: Option<u64>,
    g1: u32,
    g2: u32,
    offload_kqv: Option<bool>,
    kv_bytes_per_token: u64,
    sidecar_vram_reserve: u64,
)
    requires
        offload_kqv != Some(true),
        kv_bytes_per_token > 0,
        g1 <= g2,
    ensures
        ({
            let gpu = weight_split_spec(m, costs, g1 as int).1;
            let cpu = m.model_size_bytes - imin(gpu, m.model_size_bytes as int);
            let reserve = if available_memory / 5 < 536870912 {
                536870912int
            } else {
                (available_memory / 5) as int
            };
            let left = available_memory - cpu - reserve;
            let tokens = (if left < 0 {
                0
            } else {
                left
            }) / (kv_bytes_per_token as int);
            recommended_context_for_layers_spec(
                m,
                costs,
                Some(available_memory),
                available_vram,
                g1 as int,
                offload_kqv,
                kv_bytes_per_token as int,
                sidecar_vram_reserve as int,
            ) == Some(if tokens < m.max_context_length {
                tokens
            } else {
                m.max_context_length as int
            })
        }),
        recommended_context_for_layers_spec(
            m,
            costs,
            Some(available_memory),
            available_vram,
            g1 as int,
            offload_kqv,
            kv_bytes_per_token as int,
            sidecar_vram_reserve as int,
        )->0 <= recommended_context_for_layers_spec(
            m,
            costs,
            Some(available_memory),
            available_vram,
            g2 as int,
            offload_kqv,
            kv_bytes_per_token as int,
            sidecar_vram_reserve as int,
        )->0,
{
    lemma_cpu_bytes(m, costs, g1 as int);
    lemma_cpu_bytes(m, costs, g2 as int);
    lemma_gpu_split_monotone(m, costs, g1 as int, g2 as int);
    let a = available_memory as int;
    let r = default_memory_reserve_spec(a);
    let c1 = weight_split_spec(m, costs, g1 as int).0;
    let c2 = weight_split_spec(m, costs, g2 as int).0;
    assert(c2 <= c1);
    let b1 = monus(a, sat64(c1 + r));
    let b2 = monus(a, sat64(c2 + r));
    assert(b1 <= b2);
    let k = kv_bytes_per_token as int;
    assert(b1 / k <= b2 / k) by (nonlinear_arith)
        requires
            0 <= b1 <= b2,
            k > 0,
    ;
    assert(c1 + r <= u64::MAX ==> sat64(c1 + r) == c1 + r);
    if c1 + r > u64::MAX {
        assert(b1 == 0);
    }
}

} // verus!
