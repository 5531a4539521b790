//! Detection of sensitive data values: the built-in detectors and the
//! checksum validation that backs the Aadhaar and CPF detectors.

use vstd::prelude::*;

verus! {

use crate::text::str_to_chars;

// ---------------------------------------------------------------------------
// Digit extraction
// ---------------------------------------------------------------------------

/// The decimal digits of a text, in order, everything else dropped.
pub open spec fn digit_vals(s: Seq<char>) -> Seq<u8>
    decreases s.len(),
{
    if s.len() == 0 {
        Seq::empty()
    } else {
        (if '0' as u32 <= s[0] as u32 <= '9' as u32 {
            seq![(s[0] as u32 - 48) as u8]
        } else {
            Seq::empty()
        }) + digit_vals(s.subrange(1, s.len() as int))
    }
}

/// Every extracted digit is below ten.
pub proof fn lemma_digit_vals_bounded(s: Seq<char>)
    ensures
        forall|i: int| 0 <= i < digit_vals(s).len() ==> digit_vals(s)[i] < 10,
    decreases s.len(),
{
    if s.len() > 0 {
        let tail = s.subrange(1, s.len() as int);
        lemma_digit_vals_bounded(tail);
        let head: Seq<u8> = if '0' as u32 <= s[0] as u32 <= '9' as u32 {
            seq![(s[0] as u32 - 48) as u8]
        } else {
            Seq::empty()
        };
        assert forall|i: int| 0 <= i < digit_vals(s).len() implies digit_vals(s)[i] < 10 by {
            if i >= head.len() {
                assert(digit_vals(s)[i] == digit_vals(tail)[i - head.len()]);
            }
        }
    }
}

/// Extracts the decimal digits of a text.
fn digits_of(text: &str) -> (v: Vec<u8>)
    ensures
        v@ == digit_vals(text@),
        forall|i: int| 0 <= i < v@.len() ==> v@[i] < 10,
{
    let chars = str_to_chars(text);
    let n = chars.len();
    let mut v: Vec<u8> = Vec::new();
    let mut i: usize = 0;
    proof {
        assert(chars@.subrange(0, n as int) =~= chars@);
        assert(Seq::<u8>::empty() + digit_vals(chars@) =~= digit_vals(chars@));
    }
    while i < n
        invariant
            0 <= i <= n,
            n == chars@.len(),
            chars@ == text@,
            v@ + digit_vals(chars@.subrange(i as int, n as int)) == digit_vals(text@),
            forall|j: int| 0 <= j < v@.len() ==> v@[j] < 10,
        decreases n - i,
    {
        let ghost pre = chars@.subrange(i as int, n as int);
        proof {
            assert(pre[0] == chars@[i as int]);
            assert(pre.subrange(1, pre.len() as int) =~= chars@.subrange(i + 1, n as int));
        }
        let c = chars[i];
        let cv = c as u32;
        if 48 <= cv && cv <= 57 {
            let ghost old_v = v@;
            v.push((cv - 48) as u8);
            proof {
                assert(old_v + (seq![(chars@[i as int] as u32 - 48) as u8] + digit_vals(
                    chars@.subrange(i + 1, n as int),
                )) =~= (old_v + seq![(chars@[i as int] as u32 - 48) as u8]) + digit_vals(
                    chars@.subrange(i + 1, n as int),
                ));
                assert(v@ =~= old_v + seq![(chars@[i as int] as u32 - 48) as u8]);
            }
        } else {
            proof {
                assert(Seq::<u8>::empty() + digit_vals(chars@.subrange(i + 1, n as int)) =~=
                    digit_vals(chars@.subrange(i + 1, n as int)));
            }
        }
        i = i + 1;
    }
    proof {
        assert(chars@.subrange(n as int, n as int) =~= Seq::<char>::empty());
        assert(v@ =~= digit_vals(text@));
    }
    v
}

// ---------------------------------------------------------------------------
// The Verhoeff tables behind the Aadhaar checksum
// ---------------------------------------------------------------------------

pub open spec fn verhoeff_mult_table() -> Seq<Seq<int>> {
    seq![
        seq![0, 1, 2, 3, 4, 5, 6, 7, 8, 9],
        seq![1, 2, 3, 4, 0, 6, 7, 8, 9, 5],
        seq![2, 3, 4, 0, 1, 7, 8, 9, 5, 6],
        seq![3, 4, 0, 1, 2, 8, 9, 5, 6, 7],
        seq![4, 0, 1, 2, 3, 9, 5, 6, 7, 8],
        seq![5, 9, 8, 7, 6, 0, 4, 3, 2, 1],
        seq![6, 5, 9, 8, 7, 1, 0, 4, 3, 2],
        seq![7, 6, 5, 9, 8, 2, 1, 0, 4, 3],
        seq![8, 7, 6, 5, 9, 3, 2, 1, 0, 4],
        seq![9, 8, 7, 6, 5, 4, 3, 2, 1, 0],
    ]
}

pub open spec fn verhoeff_perm_table() -> Seq<Seq<int>> {
    seq![
        seq![0, 1, 2, 3, 4, 5, 6, 7, 8, 9],
        seq![1, 5, 7, 6, 2, 8, 3, 0, 9, 4],
        seq![5, 8, 0, 3, 7, 9, 6, 1, 4, 2],
        seq![8, 9, 1, 6, 0, 4, 3, 5, 2, 7],
        seq![9, 4, 5, 3, 1, 2, 6, 8, 7, 0],
        seq![4, 2, 8, 6, 5, 7, 3, 9, 0, 1],
        seq![2, 7, 9, 3, 8, 0, 6, 4, 1, 5],
        seq![7, 0, 4, 6, 9, 1, 3, 2, 5, 8],
    ]
}

pub open spec fn verhoeff_inv_table() -> Seq<int> {
    seq![0, 4, 3, 2, 1, 5, 6, 7, 8, 9]
}

#[verifier::rlimit(60)]
fn mult_at(c: u8, x: u8) -> (r: u8)
    requires
        c < 10,
        x < 10,
    ensures
        r as int == verhoeff_mult_table()[c as int][x as int],
        r < 10,
{
    match c {
        0 => match x { 0 => 0, 1 => 1, 2 => 2, 3 => 3, 4 => 4, 5 => 5, 6 => 6, 7 => 7, 8 => 8, _ => 9, },
        1 => match x { 0 => 1, 1 => 2, 2 => 3, 3 => 4, 4 => 0, 5 => 6, 6 => 7, 7 => 8, 8 => 9, _ => 5, },
        2 => match x { 0 => 2, 1 => 3, 2 => 4, 3 => 0, 4 => 1, 5 => 7, 6 => 8, 7 => 9, 8 => 5, _ => 6, },
        3 => match x { 0 => 3, 1 => 4, 2 => 0, 3 => 1, 4 => 2, 5 => 8, 6 => 9, 7 => 5, 8 => 6, _ => 7, },
        4 => match x { 0 => 4, 1 => 0, 2 => 1, 3 => 2, 4 => 3, 5 => 9, 6 => 5, 7 => 6, 8 => 7, _ => 8, },
        5 => match x { 0 => 5, 1 => 9, 2 => 8, 3 => 7, 4 => 6, 5 => 0, 6 => 4, 7 => 3, 8 => 2, _ => 1, },
        6 => match x { 0 => 6, 1 => 5, 2 => 9, 3 => 8, 4 => 7, 5 => 1, 6 => 0, 7 => 4, 8 => 3, _ => 2, },
        7 => match x { 0 => 7, 1 => 6, 2 => 5, 3 => 9, 4 => 8, 5 => 2, 6 => 1, 7 => 0, 8 => 4, _ => 3, },
        8 => match x { 0 => 8, 1 => 7, 2 => 6, 3 => 5, 4 => 9, 5 => 3, 6 => 2, 7 => 1, 8 => 0, _ => 4, },
        _ => match x { 0 => 9, 1 => 8, 2 => 7, 3 => 6, 4 => 5, 5 => 4, 6 => 3, 7 => 2, 8 => 1, _ => 0, },
    }
}

#[verifier::rlimit(60)]
fn perm_at(c: u8, x: u8) -> (r: u8)
    requires
        c < 8,
        x < 10,
    ensures
        r as int == verhoeff_perm_table()[c as int][x as int],
        r < 10,
{
    match c {
        0 => match x { 0 => 0, 1 => 1, 2 => 2, 3 => 3, 4 => 4, 5 => 5, 6 => 6, 7 => 7, 8 => 8, _ => 9, },
        1 => match x { 0 => 1, 1 => 5, 2 => 7, 3 => 6, 4 => 2, 5 => 8, 6 => 3, 7 => 0, 8 => 9, _ => 4, },
        2 => match x { 0 => 5, 1 => 8, 2 => 0, 3 => 3, 4 => 7, 5 => 9, 6 => 6, 7 => 1, 8 => 4, _ => 2, },
        3 => match x { 0 => 8, 1 => 9, 2 => 1, 3 => 6, 4 => 0, 5 => 4, 6 => 3, 7 => 5, 8 => 2, _ => 7, },
        4 => match x { 0 => 9, 1 => 4, 2 => 5, 3 => 3, 4 => 1, 5 => 2, 6 => 6, 7 => 8, 8 => 7, _ => 0, },
        5 => match x { 0 => 4, 1 => 2, 2 => 8, 3 => 6, 4 => 5, 5 => 7, 6 => 3, 7 => 9, 8 => 0, _ => 1, },
        6 => match x { 0 => 2, 1 => 7, 2 => 9, 3 => 3, 4 => 8, 5 => 0, 6 => 6, 7 => 4, 8 => 1, _ => 5, },
        _ => match x { 0 => 7, 1 => 0, 2 => 4, 3 => 6, 4 => 9, 5 => 1, 6 => 3, 7 => 2, 8 => 5, _ => 8, },
    }
}

fn inv_at(x: u8) -> (r: u8)
    requires
        x < 10,
    ensures
        r as int == verhoeff_inv_table()[x as int],
{
    match x {
        0 => 0, 1 => 4, 2 => 3, 3 => 2, 4 => 1, 5 => 5, 6 => 6, 7 => 7, 8 => 8, _ => 9,
    }
}

/// The Verhoeff scan: folding the table over `arr` from position `i` with
/// running value `c`.
pub open spec fn verhoeff_scan(arr: Seq<u8>, i: int, c: int) -> int
    decreases arr.len() - i,
{
    if i < 0 || i >= arr.len() {
        c
    } else {
        verhoeff_scan(
            arr,
            i + 1,
            verhoeff_mult_table()[c][verhoeff_perm_table()[(i + 1) % 8][arr[i] as int]],
        )
    }
}

/// Whether a text is a well-formed Aadhaar number: exactly twelve digits
/// whose last digit is the Verhoeff checksum of the first eleven, read in
/// reverse.
pub open spec fn spec_validate_aadhar(s: Seq<char>) -> bool {
    let digits = digit_vals(s);
    if digits.len() != 12 {
        false
    } else {
        let arr = Seq::new(11, |i: int| digits[10 - i]);
        verhoeff_inv_table()[verhoeff_scan(arr, 0, 0)] == digits[11]
    }
}

/// Validates an Aadhaar number by its Verhoeff checksum.
pub fn validate_aadhar(text: &str) -> (r: bool)
    ensures
        r == spec_validate_aadhar(text@),
{
    let digits = digits_of(text);
    if digits.len() != 12 {
        return false;
    }
    let ghost arr = Seq::new(11, |i: int| digit_vals(text@)[10 - i]);
    let mut c: u8 = 0;
    let mut i: usize = 0;
    while i < 11
        invariant
            0 <= i <= 11,
            digits@ == digit_vals(text@),
            digits@.len() == 12,
            forall|j: int| 0 <= j < 12 ==> digits@[j] < 10,
            arr == Seq::new(11, |j: int| digit_vals(text@)[10 - j]),
            c < 10,
            verhoeff_scan(arr, i as int, c as int) == verhoeff_scan(arr, 0, 0),
        decreases 11 - i,
    {
        let d = digits[10 - i];
        let p = perm_at(((i + 1) % 8) as u8, d);
        let c2 = mult_at(c, p);
        proof {
            assert(arr[i as int] == digits@[10 - i as int]);
        }
        c = c2;
        i = i + 1;
    }
    let checksum = digits[11];
    inv_at(c) == checksum
}

// ---------------------------------------------------------------------------
// The CPF check digits
// ---------------------------------------------------------------------------

/// The weighted digit sum the CPF verifier uses, from position `idx`.
pub open spec fn cpf_sum(ls: Seq<u8>, modulus: int, idx: int) -> int
    decreases ls.len() - idx,
{
    if idx < 0 || idx >= ls.len() {
        0
    } else {
        ls[idx] * (modulus - idx) + cpf_sum(ls, modulus, idx + 1)
    }
}

/// The verifier digit of a CPF digit prefix.
pub open spec fn spec_cpf_digit(ls: Seq<u8>) -> u8 {
    let r = cpf_sum(ls, ls.len() as int + 1, 0) % 11;
    if r < 2 {
        0
    } else {
        (11 - r) as u8
    }
}

proof fn lemma_cpf_sum_bound(ls: Seq<u8>, modulus: int, idx: int)
    requires
        0 <= idx <= ls.len(),
        ls.len() + 1 <= modulus <= 1001,
    ensures
        0 <= cpf_sum(ls, modulus, idx) <= (ls.len() - idx) * 255255,
    decreases ls.len() - idx,
{
    if idx < ls.len() {
        lemma_cpf_sum_bound(ls, modulus, idx + 1);
        assert(ls[idx] * (modulus - idx) <= 255 * 1001) by (nonlinear_arith)
            requires
                0 <= ls[idx] <= 255,
                0 <= modulus - idx <= 1001,
        ;
        assert(0 <= ls[idx] * (modulus - idx)) by (nonlinear_arith)
            requires
                0 <= ls[idx],
                0 <= modulus - idx,
        ;
        assert((ls.len() - idx) * 255255 == (ls.len() - (idx + 1)) * 255255 + 255255)
            by (nonlinear_arith);
    }
}

/// Computes the verifier digit over a CPF digit prefix, as the weighted
/// sum modulo eleven.
pub fn cpf_verifier_digit(ls: &Vec<u8>) -> (r: u8)
    requires
        ls@.len() <= 1000,
    ensures
        r == spec_cpf_digit(ls@),
{
    let n = ls.len();
    let modulus = n + 1;
    let mut sum: usize = 0;
    let mut i: usize = 0;
    while i < n
        invariant
            0 <= i <= n,
            n == ls@.len(),
            n <= 1000,
            modulus == n + 1,
            sum == cpf_sum(ls@, modulus as int, 0) - cpf_sum(ls@, modulus as int, i as int),
            0 <= sum <= i * 255255,
        decreases n - i,
    {
        proof {
            lemma_cpf_sum_bound(ls@, modulus as int, i as int);
            lemma_cpf_sum_bound(ls@, modulus as int, i + 1);
            assert(ls@[i as int] * (modulus - i) <= 255 * 1001) by (nonlinear_arith)
                requires
                    0 <= ls@[i as int] <= 255,
                    0 <= modulus - i <= 1001,
            ;
            assert(0 <= ls@[i as int] * (modulus - i)) by (nonlinear_arith)
                requires
                    0 <= ls@[i as int],
                    0 <= modulus - i,
            ;
            assert(i * 255255 + 255255 == (i + 1) * 255255) by (nonlinear_arith);
            assert((i + 1) * 255255 <= 1001 * 255255) by (nonlinear_arith)
                requires
                    i + 1 <= 1001,
            ;
        }
        let term = (ls[i] as usize) * (modulus - i);
        proof {
            assert(term <= 255255);
            assert(sum + term <= (i + 1) * 255255);
            assert((i + 1) * 255255 <= 255510255int) by (nonlinear_arith)
                requires
                    0 <= i + 1 <= 1001,
            ;
        }
        sum = sum + term;
        i = i + 1;
    }
    proof {
        lemma_cpf_sum_bound(ls@, modulus as int, 0);
    }
    let res = sum % 11;
    if res < 2 {
        0
    } else {
        (11 - res) as u8
    }
}

/// Whether a text is a well-formed CPF: exactly eleven digits whose last
/// two are the verifier digits of the first nine.
pub open spec fn spec_validate_cpf(s: Seq<char>) -> bool {
    let digits = digit_vals(s);
    if digits.len() != 11 {
        false
    } else {
        let ls = digits.subrange(0, 9);
        let d1 = spec_cpf_digit(ls);
        let d2 = spec_cpf_digit(ls.push(d1));
        d1 == digits[9] && d2 == digits[10]
    }
}

/// Validates a Brazilian CPF by its two verifier digits.
pub fn validate_brazil_cpf(text: &str) -> (r: bool)
    ensures
        r == spec_validate_cpf(text@),
{
    let digits = digits_of(text);
    if digits.len() != 11 {
        return false;
    }
    let mut ls = digits;
    let check2 = ls.pop().unwrap();
    let check1 = ls.pop().unwrap();
    proof {
        assert(ls@ =~= digit_vals(text@).subrange(0, 9));
    }
    let real1 = cpf_verifier_digit(&ls);
    ls.push(real1);
    let real2 = cpf_verifier_digit(&ls);
    real1 == check1 && real2 == check2
}

// ---------------------------------------------------------------------------
// The detectors
// ---------------------------------------------------------------------------

/// Whether a candidate value of the named kind passes its checksum: the
/// Aadhaar and CPF kinds carry one; every other kind passes.
pub open spec fn spec_validate(kind: Seq<char>, text: Seq<char>) -> bool {
    if kind == ("Aadhar Number")@ {
        spec_validate_aadhar(text)
    } else if kind == ("Brazil CPF")@ {
        spec_validate_cpf(text)
    } else {
        true
    }
}

/// Runs the checksum validation of the named sensitive-data kind.
pub fn validate(sensitive_data_type: String, text: &str) -> (r: bool)
    ensures
        r == spec_validate(sensitive_data_type@, text@),
{
    if crate::text::str_eq(sensitive_data_type.as_str(), "Aadhar Number") {
        validate_aadhar(text)
    } else if crate::text::str_eq(sensitive_data_type.as_str(), "Brazil CPF") {
        validate_brazil_cpf(text)
    } else {
        true
    }
}

// ---------------------------------------------------------------------------
// Pattern matching
// ---------------------------------------------------------------------------

/// Declares `regex::Regex` so compiled patterns can live in library
/// types; its values are opaque here.
#[verifier::external_type_specification]
#[verifier::external_body]
pub struct ExRegex(regex::Regex);

/// What `regex::Regex::is_match` decides for a pattern source and a
/// text.  For a fixed pattern the decision is a function of the text
/// alone, so it can be named by the pair.
pub uninterp spec fn regex_match(pattern: Seq<char>, text: Seq<char>) -> bool;

/// A compiled pattern together with its source.  The fields are private:
/// `compile_pattern` is the only constructor, so every value ties the
/// compiled form to the source it came from, and matches can be spoken of
/// by the source (the view).
#[derive(Debug)]
pub struct CompiledPattern {
    pattern: String,
    re: regex::Regex,
}

impl View for CompiledPattern {
    type V = Seq<char>;

    closed spec fn view(&self) -> Seq<char> {
        self.pattern@
    }
}

/// Relies on `regex::Regex::new`: compiles a pattern, or fails on a bad
/// one.  Nothing is assumed of which patterns compile; on success the
/// source is kept beside the compiled form.
#[verifier::external_body]
pub fn compile_pattern(pattern: &str) -> (r: Option<CompiledPattern>)
    ensures
        match r {
            Some(cp) => cp@ == pattern@,
            None => true,
        },
{
    regex::Regex::new(pattern).ok().map(
        |re| CompiledPattern { pattern: pattern.to_owned(), re },
    )
}

/// Relies on `regex::Regex::is_match`: whether the pattern matches
/// somewhere in the text.  The decision depends on the pattern source and
/// the text alone, so it equals the named `regex_match` of the pair;
/// `CompiledPattern`'s one constructor guarantees the compiled form was
/// built from the source the view names.
#[verifier::external_body]
fn pattern_matches(cp: &CompiledPattern, txt: &str) -> (r: bool)
    ensures
        r == regex_match(cp@, txt@),
{
    cp.re.is_match(txt)
}

/// One sensitive-data detector: the kind it reports, a pattern for values,
/// and a pattern for key names.
#[derive(Debug)]
pub struct SensitiveData {
    pub sensitive_data_type: String,
    pub regex: Option<CompiledPattern>,
    pub key_regex: Option<CompiledPattern>,
}

/// The source of an optional pattern; empty when there is none.
pub open spec fn pattern_of(p: Option<CompiledPattern>) -> Seq<char> {
    match p {
        Some(cp) => cp@,
        None => Seq::empty(),
    }
}

/// The two built-in detectors: email addresses and IPv4 addresses.
pub fn default_sensitive_data_ls() -> (r: Vec<SensitiveData>)
    ensures
        r@.len() == 2,
        r@[0].sensitive_data_type@ == ("Email")@,
        r@[1].sensitive_data_type@ == ("IP Address")@,
{
    let email = SensitiveData {
        sensitive_data_type: "Email".to_owned(),
        regex: compile_pattern(
            r#"(^|\s)(?:[a-z0-9!#$%&'*+/=?^_`{|}~-]+(?:\.[a-z0-9!#$%&'*+/=?^_`{|}~-]+)*|"(?:[\x01-\x08\x0b\x0c\x0e-\x1f\x21\x23-\x5b\x5d-\x7f]|\\[\x01-\x09\x0b\x0c\x0e-\x7f])*")@(?:(?:[a-z0-9](?:[a-z0-9-]*[a-z0-9])?\.)+[a-z0-9](?:[a-z0-9-]*[a-z0-9])?|\[(?:(?:25[0-5]|2[0-4][0-9]|[01]?[0-9][0-9]?)\.){3}(?:25[0-5]|2[0-4][0-9]|[01]?[0-9][0-9]?|[a-z0-9-]*[a-z0-9]:(?:[\x01-\x08\x0b\x0c\x0e-\x1f\x21-\x5a\x53-\x7f]|\\[\x01-\x09\x0b\x0c\x0e-\x7f])+)\])(\s|$)"#,
        ),
        key_regex: None,
    };
    let ip = SensitiveData {
        sensitive_data_type: "IP Address".to_owned(),
        regex: compile_pattern(
            r#"(^|\s)(?:25[0-5]|2[0-4][0-9]|[01]?[0-9][0-9]?)\.(?:25[0-5]|2[0-4][0-9]|[01]?[0-9][0-9]?)\.(?:25[0-5]|2[0-4][0-9]|[01]?[0-9][0-9]?)\.(?:25[0-5]|2[0-4][0-9]|[01]?[0-9][0-9]?)(\s|$)"#,
        ),
        key_regex: None,
    };
    let mut out: Vec<SensitiveData> = Vec::new();
    out.push(email);
    out.push(ip);
    out
}

/// The views of a list of detected kind names.
pub open spec fn strings_view(s: Seq<String>) -> Seq<Seq<char>> {
    s.map_values(|t: String| t@)
}

/// Whether a list of detected kinds is sound for `txt` against the
/// detector list: no kind repeats, each kind passed its checksum on the
/// text, and each names a detector whose pattern exists.
pub open spec fn detections_ok(
    r: Seq<Seq<char>>,
    txt: Seq<char>,
    list: Seq<SensitiveData>,
    keyed: bool,
) -> bool {
    &&& forall|i: int, j: int| 0 <= i < j < r.len() ==> r[i] != r[j]
    &&& forall|i: int| 0 <= i < r.len() ==> spec_validate(#[trigger] r[i], txt)
    &&& forall|i: int|
        0 <= i < r.len() ==> exists|j: int|
            0 <= j < list.len() && (#[trigger] list[j]).sensitive_data_type@ == (#[trigger] r[i])
                && (if keyed {
                list[j].key_regex is Some
            } else {
                list[j].regex is Some
            })
}

fn contains_string(v: &Vec<String>, s: &String) -> (r: bool)
    ensures
        r == strings_view(v@).contains(s@),
{
    let n = v.len();
    let mut i: usize = 0;
    while i < n
        invariant
            0 <= i <= n,
            n == v@.len(),
            forall|j: int| 0 <= j < i ==> v@[j]@ != s@,
        decreases n - i,
    {
        if v[i] == *s {
            proof {
                assert(strings_view(v@)[i as int] == s@);
            }
            return true;
        }
        i = i + 1;
    }
    proof {
        if strings_view(v@).contains(s@) {
            let j = choose|j: int| 0 <= j < strings_view(v@).len() && strings_view(v@)[j] == s@;
            assert(v@[j]@ == s@);
        }
    }
    false
}

/// The kinds detected in a text: entry `i` of the detector list is
/// reported exactly when its pattern exists and matches (by the named
/// `regex_match` decision), its checksum passes on the text, and the kind
/// was not already reported; first occurrences win, `acc` carries what is
/// reported so far.
pub open spec fn spec_detected(
    txt: Seq<char>,
    list: Seq<SensitiveData>,
    keyed: bool,
    i: int,
    acc: Seq<Seq<char>>,
) -> Seq<Seq<char>>
    decreases list.len() - i,
{
    if i < 0 || i >= list.len() {
        acc
    } else {
        let name = list[i].sensitive_data_type@;
        let pat = if keyed {
            list[i].key_regex
        } else {
            list[i].regex
        };
        let hit = pat is Some && regex_match(pattern_of(pat), txt) && spec_validate(name, txt)
            && !acc.contains(name);
        spec_detected(
            txt,
            list,
            keyed,
            i + 1,
            if hit {
                acc.push(name)
            } else {
                acc
            },
        )
    }
}

/// The kinds detected in a text against a detector list.
pub open spec fn spec_detect(txt: Seq<char>, list: Seq<SensitiveData>, keyed: bool) -> Seq<
    Seq<char>,
> {
    spec_detected(txt, list, keyed, 0, Seq::empty())
}

fn detect_inner(txt: &str, sensitive_data: &Vec<SensitiveData>, keyed: bool) -> (r: Vec<String>)
    ensures
        strings_view(r@) == spec_detect(txt@, sensitive_data@, keyed),
        detections_ok(strings_view(r@), txt@, sensitive_data@, keyed),
{
    let n = sensitive_data.len();
    let mut out: Vec<String> = Vec::new();
    let mut i: usize = 0;
    proof {
        assert(strings_view(out@) =~= Seq::<Seq<char>>::empty());
    }
    while i < n
        invariant
            0 <= i <= n,
            n == sensitive_data@.len(),
            spec_detected(txt@, sensitive_data@, keyed, i as int, strings_view(out@))
                == spec_detect(txt@, sensitive_data@, keyed),
            detections_ok(strings_view(out@), txt@, sensitive_data@, keyed),
        decreases n - i,
    {
        let entry = &sensitive_data[i];
        let pat = if keyed {
            &entry.key_regex
        } else {
            &entry.regex
        };
        match pat {
            Some(cp) => {
                if pattern_matches(cp, txt) && validate(entry.sensitive_data_type.clone(), txt)
                    && !contains_string(&out, &entry.sensitive_data_type) {
                    let ghost old_out = strings_view(out@);
                    out.push(entry.sensitive_data_type.clone());
                    proof {
                        assert(strings_view(out@) =~= old_out.push(
                            sensitive_data@[i as int].sensitive_data_type@,
                        ));
                        assert(detections_ok(strings_view(out@), txt@, sensitive_data@, keyed));
                    }
                }
            },
            None => {},
        }
        i = i + 1;
    }
    out
}

/// Detects the sensitive-data kinds whose value pattern matches the text
/// and whose checksum, if the kind carries one, passes: the result is
/// exactly `spec_detect` — a kind is reported iff its pattern exists and
/// matches (the named `regex_match` decision) and its checksum passes,
/// each kind once, in detector order.
pub fn detect_sensitive_data(txt: &str, sensitive_data: &Vec<SensitiveData>) -> (r: Vec<String>)
    ensures
        strings_view(r@) == spec_detect(txt@, sensitive_data@, false),
        detections_ok(strings_view(r@), txt@, sensitive_data@, false),
{
    detect_inner(txt, sensitive_data, false)
}

/// Detects the sensitive-data kinds whose key pattern matches a path
/// segment, under the same promises as `detect_sensitive_data`.
pub fn detect_sensitive_in_path_data(txt: &str, sensitive_data: &Vec<SensitiveData>) -> (r: Vec<
    String,
>)
    ensures
        strings_view(r@) == spec_detect(txt@, sensitive_data@, true),
        detections_ok(strings_view(r@), txt@, sensitive_data@, true),
{
    detect_inner(txt, sensitive_data, true)
}

} // verus!
