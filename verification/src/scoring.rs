//! Base scores of the conservative and aggressive oracle strategies, from what a launch
//! candidate says about itself.
use vstd::prelude::*;
use vstd::string::StringSliceAdditionalSpecFns;

verus! {

/// `needle` occurs in `haystack` (the empty needle occurs everywhere).
pub open spec fn contains_sub(haystack: Seq<char>, needle: Seq<char>) -> bool {
    exists|i: int| 0 <= i && i + needle.len() <= haystack.len() && #[trigger] haystack.subrange(i, i + needle.len()) == needle
}

/// The characters of a string slice.
pub(crate) fn chars_of(s: &str) -> (r: Vec<char>)
    ensures
        r@ == s@,
{
    let mut out: Vec<char> = Vec::new();
    let ghost text = s@;
    for c in it: s.chars()
        invariant
            it.seq() == text,
            out@ == text.take(it.index() as int),
    {
        proof {
            assert(text.take(it.index() as int + 1) =~= text.take(it.index() as int).push(c));
        }
        out.push(c);
    }
    proof {
        assert(text.take(text.len() as int) =~= text);
    }
    out
}

fn vec_contains_sub(h: &Vec<char>, n: &Vec<char>) -> (r: bool)
    ensures
        r == contains_sub(h@, n@),
{
    if n.len() == 0 {
        proof {
            assert(h@.subrange(0int, 0int + n@.len()) =~= n@);
        }
        return true;
    }
    if n.len() > h.len() {
        return false;
    }
    let hn = h.len();
    let last = hn - n.len();
    let mut i: usize = 0;
    while i <= last
        invariant
            hn == h@.len(),
            n@.len() > 0,
            last + n@.len() == h@.len(),
            i <= last + 1,
            forall|k: int| 0 <= k < i ==> #[trigger] h@.subrange(k, k + n@.len()) != n@,
        decreases last + 1 - i,
    {
        let mut j: usize = 0;
        while j < n.len() && h[i + j] == n[j]
            invariant
                i <= last,
                hn == h@.len(),
                last + n@.len() == h@.len(),
                j <= n@.len(),
                forall|m: int| 0 <= m < j ==> h@[i + m] == n@[m],
            decreases n@.len() - j,
        {
            j = j + 1;
        }
        if j == n.len() {
            proof {
                assert(h@.subrange(i as int, i as int + n@.len()) =~= n@);
            }
            return true;
        }
        proof {
            assert(h@.subrange(i as int, i as int + n@.len())[j as int] != n@[j as int]);
        }
        i = i + 1;
    }
    proof {
        assert forall|k: int| 0 <= k && k + n@.len() <= h@.len() implies #[trigger] h@.subrange(k, k + n@.len()) != n@ by {
            assert(k < i);
        }
    }
    false
}

/// Whether `needle` occurs in `haystack`, as `str::contains` with a string pattern.
pub fn str_contains(haystack: &str, needle: &str) -> (r: bool)
    ensures
        r == contains_sub(haystack@, needle@),
{
    let h = chars_of(haystack);
    let n = chars_of(needle);
    vec_contains_sub(&h, &n)
}

/// What a launch candidate says about itself that the strategies score.
pub struct CandidateTraits {
    /// Whether the launch came in a Jito bundle (unknown counts as no)
    pub is_jito_bundle: Option<bool>,
    /// Deployment program
    pub program: String,
    /// Summary of the deploy instruction, when known
    pub instruction_summary: Option<String>,
}

/// Program points of the conservative strategy: well-known launchpads and AMMs only.
pub open spec fn conservative_program_points(program: Seq<char>) -> int {
    if contains_sub(program, "pump.fun"@) {
        12
    } else if contains_sub(program, "raydium"@) || contains_sub(program, "orca"@) {
        10
    } else {
        0
    }
}

/// Instruction points of the conservative strategy: simple create/initialize operations.
pub open spec fn conservative_instruction_points(instr: Option<String>) -> int {
    match instr {
        Some(i) => if contains_sub(i@, "create"@) || contains_sub(i@, "initialize"@) { 5 } else { 0 },
        None => 0,
    }
}

/// The conservative base score: 8 for a Jito bundle, the program and instruction points, and a
/// base of 30.
pub open spec fn spec_conservative_base(c: CandidateTraits) -> int {
    (if c.is_jito_bundle == Some(true) { 8int } else { 0int }) + conservative_program_points(c.program@)
        + conservative_instruction_points(c.instruction_summary) + 30
}

/// Program points of the aggressive strategy: any program earns some credit.
pub open spec fn aggressive_program_points(program: Seq<char>) -> int {
    if contains_sub(program, "pump.fun"@) {
        20
    } else if contains_sub(program, "raydium"@) || contains_sub(program, "orca"@) || contains_sub(program, "meteora"@) {
        15
    } else {
        5
    }
}

/// Instruction points of the aggressive strategy: trading activity scores most, any other
/// known instruction some.
pub open spec fn aggressive_instruction_points(instr: Option<String>) -> int {
    match instr {
        Some(i) => if contains_sub(i@, "swap"@) || contains_sub(i@, "buy"@) || contains_sub(i@, "trade"@) { 10 } else { 5 },
        None => 0,
    }
}

/// The aggressive base score: 15 for a Jito bundle, the program and instruction points, and a
/// base of 20.
pub open spec fn spec_aggressive_base(c: CandidateTraits) -> int {
    (if c.is_jito_bundle == Some(true) { 15int } else { 0int }) + aggressive_program_points(c.program@)
        + aggressive_instruction_points(c.instruction_summary) + 20
}

fn is_jito(c: &CandidateTraits) -> (r: bool)
    ensures
        r == (c.is_jito_bundle == Some(true)),
{
    match c.is_jito_bundle {
        Some(b) => b,
        None => false,
    }
}

/// Base score of a candidate under the conservative strategy.
pub fn conservative_base_score(c: &CandidateTraits) -> (r: u8)
    ensures
        r == spec_conservative_base(*c),
{
    let mut score: u8 = 0;
    if is_jito(c) {
        score = score + 8;
    }
    let program = c.program.as_str();
    if str_contains(program, "pump.fun") {
        score = score + 12;
    } else if str_contains(program, "raydium") || str_contains(program, "orca") {
        score = score + 10;
    }
    match &c.instruction_summary {
        Some(instr) => {
            if str_contains(instr.as_str(), "create") || str_contains(instr.as_str(), "initialize") {
                score = score + 5;
            }
        },
        None => {},
    }
    score + 30
}

/// Base score of a candidate under the aggressive strategy.
pub fn aggressive_base_score(c: &CandidateTraits) -> (r: u8)
    ensures
        r == spec_aggressive_base(*c),
{
    let mut score: u8 = 0;
    if is_jito(c) {
        score = score + 15;
    }
    let program = c.program.as_str();
    if str_contains(program, "pump.fun") {
        score = score + 20;
    } else if str_contains(program, "raydium") || str_contains(program, "orca") || str_contains(program, "meteora") {
        score = score + 15;
    } else {
        score = score + 5;
    }
    match &c.instruction_summary {
        Some(instr) => {
            let s = instr.as_str();
            if str_contains(s, "swap") || str_contains(s, "buy") || str_contains(s, "trade") {
                score = score + 10;
            } else {
                score = score + 5;
            }
        },
        None => {},
    }
    score + 20
}

/// For the same candidate the aggressive strategy never scores below the conservative one by
/// more than the conservative base head start, and a pump.fun launch in a Jito bundle gets at
/// least 55 from the aggressive strategy.
pub proof fn lemma_strategy_scores(c: CandidateTraits)
    ensures
        spec_conservative_base(c) >= 30,
        spec_aggressive_base(c) >= 25,
        spec_aggressive_base(c) + 10 >= spec_conservative_base(c),
        c.is_jito_bundle == Some(true) && contains_sub(c.program@, "pump.fun"@) ==> spec_aggressive_base(c) >= 55,
{
}

/// A score below the strategy's minimum is rejected as zero.
pub fn apply_min_threshold(score: u8, min_score_threshold: u8) -> (r: u8)
    ensures
        r == if score < min_score_threshold { 0 } else { score },
{
    if score < min_score_threshold { 0 } else { score }
}

/// Sum of the first `n` bytes, wrapping at 2^32.
pub open spec fn byte_hash(bytes: Seq<u8>, n: int) -> int
    decreases n,
{
    if n <= 0 { 0 } else { (byte_hash(bytes, n - 1) + bytes[n - 1]) % 0x1_0000_0000 }
}

/// Sum of the bytes of a program name, wrapping at 2^32; its remainder by 100 is the program's
/// feature value in hundredths.
pub fn program_byte_hash(program: &str) -> (r: u32)
    ensures
        r == byte_hash(program.spec_bytes(), program.spec_bytes().len() as int),
{
    let bytes = program.as_bytes();
    let mut acc: u32 = 0;
    let mut i: usize = 0;
    while i < bytes.len()
        invariant
            bytes@ == program.spec_bytes(),
            i <= bytes@.len(),
            acc == byte_hash(bytes@, i as int),
        decreases bytes@.len() - i,
    {
        acc = ((acc as u64 + bytes[i] as u64) % 0x1_0000_0000) as u32;
        i = i + 1;
    }
    acc
}

} // verus!
