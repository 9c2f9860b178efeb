//! Exam mixing: deterministic, seeded shuffling of questions and options
//! into N exam variants with pairwise-distinct three-digit exam codes.
use vstd::prelude::*;

use crate::model::{seg_eq, segs_eq, OptionItem, Question, Segment};
use rand::seq::SliceRandom;
use rand::Rng;
use rand::SeedableRng;
use crate::strutil::{chars_to_string, dec_digits, lemma_dec_digits_injective, u64_to_string};

verus! {

/// A mixed exam variant with its unique exam code.
#[derive(Debug, Clone)]
pub struct MixedExam {
    pub exam_code: String,
    pub questions: Vec<MixedQuestion>,
}

/// A question in a mixed exam, after shuffling.
#[derive(Debug, Clone)]
pub struct MixedQuestion {
    pub original_number: u32,
    pub display_number: u32,
    pub stem: Vec<Segment>,
    pub options: Vec<MixedOption>,
    pub correct_answer: String,
}

/// An option after shuffling: the new label by position, the label it had
/// in the source document, and the content copied verbatim.
#[derive(Debug, Clone)]
pub struct MixedOption {
    pub label: String,
    pub original_label: String,
    pub content: Vec<Segment>,
}

/// The preconditions the mixer checks before consuming any randomness.
#[derive(Debug, Clone, Copy, PartialEq, Eq, Structural)]
pub enum MixError {
    /// Zero variants were requested.
    ZeroVariants,
    /// The question list is empty.
    EmptyQuestions,
    /// Explicit exam codes were supplied but their count differs from the
    /// requested variant count.
    CodeCountMismatch,
}

/// The permutation that the seeded shuffle applies to a sequence: the value
/// depends on the seed and the input alone, so repeated mixes of the same
/// input are identical.
pub uninterp spec fn shuffle_of(seed: u64, s: Seq<usize>) -> Seq<usize>;

/// Relies on rand::rngs::StdRng::seed_from_u64 and
/// rand::seq::SliceRandom::shuffle: a StdRng seeded from a fixed value is a
/// fixed stream, so the in-place Fisher-Yates shuffle rearranges the slice
/// into a permutation determined by the seed and the slice contents alone.
#[verifier::external_body]
fn shuffle_with_seed(seed: u64, v: &mut Vec<usize>)
    ensures
        final(v)@ == shuffle_of(seed, old(v)@),
        final(v)@.to_multiset() == old(v)@.to_multiset(),
{
    let mut rng = rand::rngs::StdRng::seed_from_u64(seed);
    v.shuffle(&mut rng);
}

/// Relies on rand::rngs::StdRng::from_rng over rand::rngs::OsRng and
/// rand::Rng::gen_range: gen_range over the closed range 100..=999
/// returns a value inside it.  A failure of the operating system's
/// entropy source comes back as no draw instead of a panic; the caller
/// falls back deterministically.
#[verifier::external_body]
fn random_exam_code_number() -> (r: Option<u64>)
    ensures
        r matches Some(v) ==> 100 <= v <= 999,
{
    match rand::rngs::StdRng::from_rng(rand::rngs::OsRng) {
        Ok(mut rng) => Some(rng.gen_range(100..=999)),
        Err(_) => None,
    }
}

/// The identity sequence 0, 1, ..., n-1.
pub open spec fn ident_seq(n: nat) -> Seq<usize> {
    Seq::new(n, |i: int| i as usize)
}

/// `p` is a permutation of 0..n: it has length n and, as a multiset, equals
/// the identity sequence.
pub open spec fn is_perm(p: Seq<usize>, n: nat) -> bool {
    &&& p.len() == n
    &&& p.to_multiset() == ident_seq(n).to_multiset()
}

/// The usable consequences of being a permutation: all entries are in
/// range, no entry repeats, and every index below n occurs somewhere.
pub proof fn lemma_is_perm_facts(p: Seq<usize>, n: nat)
    requires
        is_perm(p, n),
        n <= usize::MAX,
    ensures
        forall|i: int| 0 <= i < p.len() ==> #[trigger] p[i] < n,
        p.no_duplicates(),
        forall|m: usize| m < n ==> #[trigger] p.contains(m),
{
    broadcast use vstd::seq_lib::group_to_multiset_ensures;

    let id = ident_seq(n);
    assert forall|i: int, j: int|
        0 <= i < id.len() && 0 <= j < id.len() && i != j implies id[i] != id[j] by {
        assert(id[i] == i as usize);
        assert(id[j] == j as usize);
    }
    assert(id.no_duplicates());
    id.lemma_multiset_has_no_duplicates();
    assert forall|x: usize| p.to_multiset().contains(x) implies p.to_multiset().count(x) == 1 by {
        assert(id.to_multiset().contains(x));
    }
    p.lemma_multiset_has_no_duplicates_conv();
    assert forall|i: int| 0 <= i < p.len() implies #[trigger] p[i] < n by {
        assert(p.contains(p[i]));
        assert(p.to_multiset().count(p[i]) > 0);
        assert(id.to_multiset().count(p[i]) > 0);
        assert(id.contains(p[i]));
        let j = choose|j: int| 0 <= j < id.len() && id[j] == p[i];
        assert(id[j] == j as usize);
        assert(p[i] == j as usize && j < n);
    }
    assert forall|m: usize| m < n implies #[trigger] p.contains(m) by {
        assert(id[m as int] == m);
        assert(id.contains(m));
        assert(id.to_multiset().count(m) > 0);
        assert(p.to_multiset().count(m) > 0);
    }
}

/// The identity sequence 0..n as a vector.
fn make_ident(n: usize) -> (r: Vec<usize>)
    ensures
        r@ == ident_seq(n as nat),
{
    let mut r: Vec<usize> = Vec::new();
    let mut i: usize = 0;
    while i < n
        invariant
            i <= n,
            r@ =~= ident_seq(i as nat),
        decreases n - i,
    {
        r.push(i);
        proof {
            assert(r@ =~= ident_seq((i + 1) as nat));
        }
        i = i + 1;
    }
    proof {
        assert(r@ =~= ident_seq(n as nat));
    }
    r
}

/// The permutation of 0..n that the seeded shuffle chooses.
fn shuffle_perm(seed: u64, n: usize) -> (p: Vec<usize>)
    ensures
        p@ == shuffle_of(seed, ident_seq(n as nat)),
        is_perm(p@, n as nat),
{
    let mut v = make_ident(n);
    shuffle_with_seed(seed, &mut v);
    proof {
        broadcast use vstd::seq_lib::group_to_multiset_ensures;

        assert(v@.len() == v@.to_multiset().len());
        assert(ident_seq(n as nat).len() == ident_seq(n as nat).to_multiset().len());
    }
    v
}

/// A three-digit exam code: the decimal representation of a number in
/// [100, 999].
pub open spec fn is_exam_code(s: Seq<char>) -> bool {
    exists|n: nat| 100 <= n <= 999 && s == dec_digits(n)
}

/// How many entries of a boolean sequence are set.
pub open spec fn count_trues(s: Seq<bool>) -> nat
    decreases s.len(),
{
    if s.len() == 0 {
        0
    } else {
        count_trues(s.drop_last()) + if s.last() {
            1nat
        } else {
            0nat
        }
    }
}

proof fn lemma_count_trues_bound(s: Seq<bool>)
    ensures
        count_trues(s) <= s.len(),
        count_trues(s) == s.len() ==> forall|i: int| 0 <= i < s.len() ==> s[i],
        (forall|i: int| 0 <= i < s.len() ==> s[i]) ==> count_trues(s) == s.len(),
    decreases s.len(),
{
    if s.len() > 0 {
        lemma_count_trues_bound(s.drop_last());
        if forall|i: int| 0 <= i < s.len() ==> s[i] {
            assert forall|i: int| 0 <= i < s.drop_last().len() implies s.drop_last()[i] by {
                assert(s[i]);
            }
            assert(s.last());
        }
        if count_trues(s) == s.len() {
            assert(count_trues(s.drop_last()) == s.drop_last().len());
            assert forall|i: int| 0 <= i < s.len() implies s[i] by {
                if i < s.len() - 1 {
                    assert(s.drop_last()[i]);
                }
            }
        }
    }
}

proof fn lemma_count_trues_update(s: Seq<bool>, i: int)
    requires
        0 <= i < s.len(),
        !s[i],
    ensures
        count_trues(s.update(i, true)) == count_trues(s) + 1,
    decreases s.len(),
{
    let s2 = s.update(i, true);
    if i == s.len() - 1 {
        assert(s2.drop_last() =~= s.drop_last());
        assert(s2.last());
        assert(!s.last());
    } else {
        assert(s2.drop_last() =~= s.drop_last().update(i, true));
        assert(s2.last() == s.last());
        lemma_count_trues_update(s.drop_last(), i);
    }
}

/// The first unset position in a mask that is not yet full.
fn pick_unused(used: &Vec<bool>) -> (r: usize)
    requires
        count_trues(used@) < used@.len(),
    ensures
        r < used@.len(),
        !used@[r as int],
{
    let n = used.len();
    let mut c: usize = 0;
    while c < n
        invariant
            c <= n,
            n == used@.len(),
            count_trues(used@) < used@.len(),
            forall|k: int| 0 <= k < c ==> used@[k],
        decreases n - c,
    {
        if !used[c] {
            return c;
        }
        c = c + 1;
    }
    proof {
        lemma_count_trues_bound(used@);
        assert(false);
    }
    0
}

/// Generate `count` pairwise-distinct exam codes, each the decimal form of
/// a number in [100, 999], by repeated random sampling; a draw that
/// collides with an already-taken code falls back to the first free code
/// counting up from 100.
pub fn generate_exam_codes(count: usize) -> (r: Vec<String>)
    requires
        count <= 900,
    ensures
        r@.len() == count,
        forall|i: int| 0 <= i < count ==> is_exam_code((#[trigger] r@[i])@),
        forall|i: int, j: int| 0 <= i < count && 0 <= j < count && i != j ==> r@[i]@ != r@[j]@,
{
    let mut used: Vec<bool> = Vec::new();
    let mut k: usize = 0;
    while k < 900
        invariant
            k <= 900,
            used@.len() == k,
            count_trues(used@) == 0,
            forall|i: int| 0 <= i < k ==> !used@[i],
        decreases 900 - k,
    {
        let ghost bu = used@;
        used.push(false);
        proof {
            assert(used@.drop_last() =~= bu);
            assert(!used@.last());
            assert(count_trues(used@) == count_trues(bu));
        }
        k = k + 1;
    }
    let mut nums: Vec<u64> = Vec::new();
    while nums.len() < count
        invariant
            used@.len() == 900,
            nums@.len() <= count <= 900,
            count_trues(used@) == nums@.len(),
            forall|i: int| 0 <= i < nums@.len() ==> 100 <= #[trigger] nums@[i] <= 999,
            forall|i: int|
                0 <= i < nums@.len() ==> used@[(#[trigger] nums@[i]) - 100],
            forall|v: int| 0 <= v < 900 && used@[v] ==> nums@.contains(((v + 100) as u64)),
            nums@.no_duplicates(),
        decreases count - nums.len(),
    {
        let idx: usize = match random_exam_code_number() {
            Some(r0) => {
                let idx0 = (r0 - 100) as usize;
                if !used[idx0] {
                    idx0
                } else {
                    pick_unused(&used)
                }
            },
            None => pick_unused(&used),
        };
        let c: u64 = 100 + (idx as u64);
        proof {
            if nums@.contains(c) {
                let w = choose|i: int| 0 <= i < nums@.len() && nums@[i] == c;
                assert(used@[(nums@[w]) - 100]);
                assert(used@[idx as int]);
            }
            assert(!nums@.contains(c));
            lemma_count_trues_update(used@, idx as int);
        }
        let ghost before_used = used@;
        used[idx] = true;
        let ghost before = nums@;
        nums.push(c);
        proof {
            assert forall|i: int|
                0 <= i < nums@.len() implies used@[(#[trigger] nums@[i]) - 100] by {
                if i < before.len() {
                    assert(nums@[i] == before[i]);
                    assert(before_used[(before[i]) - 100]);
                } else {
                    assert(nums@[i] == c);
                }
            }
            assert forall|v: int|
                0 <= v < 900 && used@[v] implies nums@.contains(((v + 100) as u64)) by {
                if v == idx as int {
                    assert(nums@[nums@.len() - 1] == c);
                } else {
                    let w = choose|i: int| 0 <= i < before.len() && before[i] == ((v + 100) as u64);
                    assert(nums@[w] == ((v + 100) as u64));
                }
            }
            assert forall|i: int, j: int|
                0 <= i < nums@.len() && 0 <= j < nums@.len() && i != j implies nums@[i]
                != nums@[j] by {
                if i < before.len() && j < before.len() {
                    assert(before[i] != before[j]);
                }
            }
        }
    }
    let ghost final_nums = nums@;
    let mut r: Vec<String> = Vec::new();
    let mut i: usize = 0;
    while i < nums.len()
        invariant
            nums@ == final_nums,
            i <= nums@.len(),
            r@.len() == i,
            forall|j: int| 0 <= j < i ==> (#[trigger] r@[j])@ == dec_digits(nums@[j] as nat),
        decreases nums.len() - i,
    {
        let s = u64_to_string(nums[i]);
        r.push(s);
        i = i + 1;
    }
    proof {
        assert forall|i2: int| 0 <= i2 < count implies is_exam_code((#[trigger] r@[i2])@) by {
            assert(r@[i2]@ == dec_digits(nums@[i2] as nat));
            assert(100 <= nums@[i2] as nat <= 999);
        }
        assert forall|i2: int, j2: int|
            0 <= i2 < count && 0 <= j2 < count && i2 != j2 implies r@[i2]@ != r@[j2]@ by {
            if r@[i2]@ == r@[j2]@ {
                lemma_dec_digits_injective(nums@[i2] as nat, nums@[j2] as nat);
            }
        }
    }
    r
}

/// The new label for the option at shuffled position `j`: the letters A-F
/// by position.
pub open spec fn label_char(j: int) -> char {
    ((65 + j) as u8) as char
}

/// The one-letter label string for position `j`.
pub open spec fn label_seq(j: int) -> Seq<char> {
    seq![label_char(j)]
}

/// The executable label for position `j`.
fn label_string(j: usize) -> (r: String)
    requires
        j < 6,
    ensures
        r@ == label_seq(j as int),
{
    let c = ((65 + j) as u8) as char;
    let mut v: Vec<char> = Vec::new();
    v.push(c);
    proof {
        assert(v@ =~= label_seq(j as int));
    }
    chars_to_string(&v)
}

/// An exact copy of a segment.
pub fn clone_segment(s: &Segment) -> (r: Segment)
    ensures
        r == *s,
{
    match s {
        Segment::Text { text, raw_xml } => Segment::Text {
            text: text.clone(),
            raw_xml: raw_xml.clone(),
        },
        Segment::Image { asset_path, raw_xml, width_emu, height_emu } => Segment::Image {
            asset_path: asset_path.clone(),
            raw_xml: raw_xml.clone(),
            width_emu: *width_emu,
            height_emu: *height_emu,
        },
        Segment::Math { omml, raw_xml } => Segment::Math {
            omml: omml.clone(),
            raw_xml: raw_xml.clone(),
        },
    }
}

/// An exact copy of a segment list.
pub fn clone_segments(v: &Vec<Segment>) -> (r: Vec<Segment>)
    ensures
        r@ == v@,
{
    let mut r: Vec<Segment> = Vec::new();
    let mut i: usize = 0;
    while i < v.len()
        invariant
            i <= v@.len(),
            r@ =~= v@.subrange(0, i as int),
        decreases v@.len() - i,
    {
        r.push(clone_segment(&v[i]));
        proof {
            assert(r@ =~= v@.subrange(0, i + 1));
        }
        i = i + 1;
    }
    proof {
        assert(r@ =~= v@);
    }
    r
}

/// Two equal segment lists are equal segment-wise.
pub proof fn lemma_segs_eq_refl(a: Seq<Segment>)
    ensures
        segs_eq(a, a),
{
    assert forall|i: int| 0 <= i < a.len() implies seg_eq(a[i], a[i]) by {
        lemma_seg_eq_refl(a[i]);
    }
}

/// Segment equality is reflexive.
pub proof fn lemma_seg_eq_refl(s: Segment)
    ensures
        seg_eq(s, s),
{
}

/// Segment-wise equality is symmetric and transitive.
pub proof fn lemma_segs_eq_sym_trans(a: Seq<Segment>, b: Seq<Segment>, src: Seq<Segment>)
    requires
        segs_eq(a, src),
        segs_eq(b, src),
    ensures
        segs_eq(a, b),
{
    assert forall|i: int| 0 <= i < a.len() implies seg_eq(a[i], b[i]) by {
        assert(seg_eq(a[i], src[i]));
        assert(seg_eq(b[i], src[i]));
    }
}

/// What the option shuffle guarantees: the seeded permutation `p` of the
/// option positions is a permutation, and the result lists, at each
/// position `j`, the source option `p[j]` relabeled to the letter for `j`.
pub open spec fn mixed_options_post(opts: Seq<OptionItem>, seed: u64, r: Seq<MixedOption>) -> bool {
    let p = shuffle_of(seed, ident_seq(opts.len()));
    &&& is_perm(p, opts.len())
    &&& r.len() == opts.len()
    &&& forall|j: int|
        0 <= j < r.len() ==> {
            &&& (#[trigger] r[j]).label@ == label_seq(j)
            &&& r[j].original_label@ == opts[p[j] as int].label@
            &&& segs_eq(r[j].content@, opts[p[j] as int].content@)
        }
}

/// Shuffle a question's options with the given seed, assigning fresh labels
/// A.. by shuffled position and keeping each option's content verbatim.
pub fn shuffle_options(options: &Vec<OptionItem>, seed: u64) -> (r: Vec<MixedOption>)
    requires
        options@.len() <= 6,
    ensures
        mixed_options_post(options@, seed, r@),
{
    let n = options.len();
    let perm = shuffle_perm(seed, n);
    proof {
        lemma_is_perm_facts(perm@, n as nat);
    }
    let mut r: Vec<MixedOption> = Vec::new();
    let mut j: usize = 0;
    while j < n
        invariant
            j <= n,
            n == options@.len() <= 6,
            perm@ == shuffle_of(seed, ident_seq(n as nat)),
            is_perm(perm@, n as nat),
            forall|i: int| 0 <= i < perm@.len() ==> #[trigger] perm@[i] < n,
            r@.len() == j,
            forall|i: int|
                0 <= i < j ==> {
                    &&& (#[trigger] r@[i]).label@ == label_seq(i)
                    &&& r@[i].original_label@ == options@[perm@[i] as int].label@
                    &&& segs_eq(r@[i].content@, options@[perm@[i] as int].content@)
                },
        decreases n - j,
    {
        let pi = perm[j];
        let src = &options[pi];
        let content = clone_segments(&src.content);
        proof {
            lemma_segs_eq_refl(content@);
        }
        r.push(MixedOption {
            label: label_string(j),
            original_label: src.label.clone(),
            content,
        });
        j = j + 1;
    }
    r
}

/// The largest position below `upto` whose option originally carried the
/// label `c`, or -1 when none does.  A later occurrence wins, mirroring how
/// a relabeling map built in position order overwrites earlier entries.
pub open spec fn last_orig_match(s: Seq<MixedOption>, c: Seq<char>, upto: int) -> int
    decreases upto,
{
    if upto <= 0 {
        -1
    } else if s[upto - 1].original_label@ == c {
        upto - 1
    } else {
        last_orig_match(s, c, upto - 1)
    }
}

/// The stored correct label resolved through the relabeling: the new label
/// of the option that originally carried it, or the label unchanged when no
/// option does (a defensive default).
pub open spec fn resolve_spec(s: Seq<MixedOption>, c: Seq<char>) -> Seq<char> {
    let k = last_orig_match(s, c, s.len() as int);
    if k >= 0 {
        s[k].label@
    } else {
        c
    }
}

/// What `last_orig_match` finds: a matching position when one exists, and
/// -1 exactly when none does.
pub proof fn lemma_last_orig_match(s: Seq<MixedOption>, c: Seq<char>, upto: int)
    requires
        0 <= upto <= s.len(),
    ensures
        -1 <= last_orig_match(s, c, upto) < upto || last_orig_match(s, c, upto) == -1,
        last_orig_match(s, c, upto) == -1 <==> (forall|j: int|
            0 <= j < upto ==> (#[trigger] s[j]).original_label@ != c),
        last_orig_match(s, c, upto) >= 0 ==> 0 <= last_orig_match(s, c, upto) < upto && s[
            last_orig_match(s, c, upto)
        ].original_label@ == c,
    decreases upto,
{
    if upto > 0 {
        lemma_last_orig_match(s, c, upto - 1);
    }
}

/// Resolve the correct label through the shuffled options.
fn resolve_correct(mixed: &Vec<MixedOption>, correct: &String) -> (r: String)
    ensures
        r@ == resolve_spec(mixed@, correct@),
{
    let n = mixed.len();
    let mut best: Option<usize> = None;
    let mut k: usize = 0;
    while k < n
        invariant
            k <= n,
            n == mixed@.len(),
            match best {
                Option::None => last_orig_match(mixed@, correct@, k as int) == -1,
                Option::Some(b) => last_orig_match(mixed@, correct@, k as int) == b && b < n,
            },
        decreases n - k,
    {
        if mixed[k].original_label.eq(correct) {
            best = Some(k);
        }
        k = k + 1;
    }
    match best {
        Some(b) => mixed[b].label.clone(),
        None => {
            let r = correct.clone();
            r
        },
    }
}

/// The seed for variant `i`.
pub open spec fn variant_seed(i: int) -> u64 {
    vstd::wrapping::u64_specs::wrapping_mul(i as u64, 1000)
}

/// The secondary seed for the question at shuffled position `j`.
pub open spec fn question_seed(seed: u64, j: int) -> u64 {
    vstd::wrapping::u64_specs::wrapping_add(seed, j as u64)
}

/// What one mixed question guarantees relative to its source question `q`
/// at shuffled position `j` of a variant with seed `seed`.
pub open spec fn mixed_question_post(q: Question, seed: u64, j: int, mq: MixedQuestion) -> bool {
    &&& mq.original_number == q.number
    &&& mq.display_number == j + 1
    &&& segs_eq(mq.stem@, q.stem@)
    &&& mixed_options_post(q.options@, question_seed(seed, j), mq.options@)
    &&& mq.correct_answer@ == resolve_spec(mq.options@, q.correct_label@)
}

/// What one variant guarantees: the questions are the source questions in
/// the order of the seeded permutation for variant `vidx`, each mixed as
/// `mixed_question_post` says.  Everything is a function of the source
/// questions and `vidx` alone.
pub open spec fn mixed_variant_post(qs: Seq<Question>, vidx: int, mqs: Seq<MixedQuestion>) -> bool {
    let seed = variant_seed(vidx);
    let qp = shuffle_of(seed, ident_seq(qs.len()));
    &&& is_perm(qp, qs.len())
    &&& mqs.len() == qs.len()
    &&& forall|j: int|
        0 <= j < mqs.len() ==> mixed_question_post(qs[qp[j] as int], seed, j, #[trigger] mqs[j])
}

/// Create `num_variants` exam variants from the validated questions.
///
/// Fails, before consuming any randomness, on a zero variant count, an
/// empty question list, or an explicit code list whose length differs from
/// the variant count.  On success it returns exactly `num_variants` exams:
/// their codes are the supplied ones in order, or freshly generated
/// pairwise-distinct three-digit codes; their questions are determined by
/// the variant index and the input alone.
pub fn mix_exams(
    questions: &Vec<Question>,
    num_variants: usize,
    codes: Option<Vec<String>>,
) -> (res: Result<Vec<MixedExam>, MixError>)
    requires
        questions@.len() < 0x1_0000_0000,
        forall|i: int| 0 <= i < questions@.len() ==> (#[trigger] questions@[i]).options@.len() <= 6,
        codes is None ==> num_variants <= 900,
    ensures
        match res {
            Ok(v) => {
                &&& num_variants > 0 && questions@.len() > 0
                &&& v@.len() == num_variants
                &&& match codes {
                    Option::Some(cs) => cs@.len() == num_variants && forall|i: int|
                        0 <= i < num_variants ==> (#[trigger] v@[i]).exam_code@ == cs@[i]@,
                    Option::None => {
                        &&& forall|i: int|
                            0 <= i < num_variants ==> is_exam_code((#[trigger] v@[i]).exam_code@)
                        &&& forall|i: int, j: int|
                            0 <= i < num_variants && 0 <= j < num_variants && i != j
                                ==> v@[i].exam_code@ != v@[j].exam_code@
                    },
                }
                &&& forall|i: int|
                    0 <= i < num_variants ==> mixed_variant_post(
                        questions@,
                        i,
                        (#[trigger] v@[i]).questions@,
                    )
            },
            Err(e) => {
                &&& (e == MixError::ZeroVariants <==> num_variants == 0)
                &&& (e == MixError::EmptyQuestions <==> num_variants > 0 && questions@.len() == 0)
                &&& (e == MixError::CodeCountMismatch <==> num_variants > 0 && questions@.len() > 0
                    && match codes {
                    Option::Some(cs) => cs@.len() != num_variants,
                    Option::None => false,
                })
            },
        },
        res is Err <==> (num_variants == 0 || questions@.len() == 0 || match codes {
            Option::Some(cs) => cs@.len() != num_variants,
            Option::None => false,
        }),
{
    if num_variants == 0 {
        return Err(MixError::ZeroVariants);
    }
    if questions.len() == 0 {
        return Err(MixError::EmptyQuestions);
    }
    let ghost codes_spec = codes;
    let code_list: Vec<String> = match codes {
        Some(cs) => {
            if cs.len() != num_variants {
                return Err(MixError::CodeCountMismatch);
            }
            cs
        },
        None => generate_exam_codes(num_variants),
    };
    let n = questions.len();
    let mut variants: Vec<MixedExam> = Vec::new();
    let mut vidx: usize = 0;
    while vidx < num_variants
        invariant
            0 < num_variants,
            0 < n == questions@.len() < 0x1_0000_0000,
            forall|i: int|
                0 <= i < questions@.len() ==> (#[trigger] questions@[i]).options@.len() <= 6,
            code_list@.len() == num_variants,
            match codes_spec {
                Option::Some(cs) => code_list@ == cs@,
                Option::None => {
                    &&& forall|i: int|
                        0 <= i < num_variants ==> is_exam_code((#[trigger] code_list@[i])@)
                    &&& forall|i: int, j: int|
                        0 <= i < num_variants && 0 <= j < num_variants && i != j
                            ==> code_list@[i]@ != code_list@[j]@
                },
            },
            vidx <= num_variants,
            variants@.len() == vidx,
            forall|i: int|
                0 <= i < vidx ==> (#[trigger] variants@[i]).exam_code@ == code_list@[i]@,
            forall|i: int|
                0 <= i < vidx ==> mixed_variant_post(
                    questions@,
                    i,
                    (#[trigger] variants@[i]).questions@,
                ),
        decreases num_variants - vidx,
    {
        let seed = (vidx as u64).wrapping_mul(1000);
        proof {
            assert(seed == variant_seed(vidx as int));
        }
        let qperm = shuffle_perm(seed, n);
        proof {
            lemma_is_perm_facts(qperm@, n as nat);
        }
        let mut mqs: Vec<MixedQuestion> = Vec::new();
        let mut j: usize = 0;
        while j < n
            invariant
                0 < n == questions@.len() < 0x1_0000_0000,
                forall|i: int|
                    0 <= i < questions@.len() ==> (#[trigger] questions@[i]).options@.len() <= 6,
                seed == variant_seed(vidx as int),
                qperm@ == shuffle_of(seed, ident_seq(n as nat)),
                is_perm(qperm@, n as nat),
                forall|i: int| 0 <= i < qperm@.len() ==> #[trigger] qperm@[i] < n,
                j <= n,
                mqs@.len() == j,
                forall|k: int|
                    0 <= k < j ==> mixed_question_post(
                        questions@[qperm@[k] as int],
                        seed,
                        k,
                        #[trigger] mqs@[k],
                    ),
            decreases n - j,
        {
            let qi = qperm[j];
            let q = &questions[qi];
            let oseed = seed.wrapping_add(j as u64);
            proof {
                assert(oseed == question_seed(seed, j as int));
            }
            let opts = shuffle_options(&q.options, oseed);
            let correct = resolve_correct(&opts, &q.correct_label);
            let stem = clone_segments(&q.stem);
            proof {
                lemma_segs_eq_refl(stem@);
            }
            mqs.push(MixedQuestion {
                original_number: q.number,
                display_number: (j + 1) as u32,
                stem,
                options: opts,
                correct_answer: correct,
            });
            j = j + 1;
        }
        let code = code_list[vidx].clone();
        variants.push(MixedExam { exam_code: code, questions: mqs });
        vidx = vidx + 1;
    }
    Ok(variants)
}

/// Deep view equality of two mixed options.
pub open spec fn mo_eq(a: MixedOption, b: MixedOption) -> bool {
    &&& a.label@ == b.label@
    &&& a.original_label@ == b.original_label@
    &&& segs_eq(a.content@, b.content@)
}

/// Deep view equality of two mixed questions.
pub open spec fn mq_eq(a: MixedQuestion, b: MixedQuestion) -> bool {
    &&& a.original_number == b.original_number
    &&& a.display_number == b.display_number
    &&& segs_eq(a.stem@, b.stem@)
    &&& a.options@.len() == b.options@.len()
    &&& forall|k: int| 0 <= k < a.options@.len() ==> mo_eq(#[trigger] a.options@[k], b.options@[k])
    &&& a.correct_answer@ == b.correct_answer@
}

proof fn lemma_last_match_congruence(s1: Seq<MixedOption>, s2: Seq<MixedOption>, c: Seq<char>, upto: int)
    requires
        s1.len() == s2.len(),
        upto <= s1.len(),
        forall|k: int|
            0 <= k < s1.len() ==> (#[trigger] s1[k]).original_label@ == s2[k].original_label@,
    ensures
        last_orig_match(s1, c, upto) == last_orig_match(s2, c, upto),
    decreases upto,
{
    if upto > 0 {
        lemma_last_match_congruence(s1, s2, c, upto - 1);
    }
}

/// Resolving the correct label depends only on the labels in view.
pub proof fn lemma_resolve_congruence(s1: Seq<MixedOption>, s2: Seq<MixedOption>, c: Seq<char>)
    requires
        s1.len() == s2.len(),
        forall|k: int|
            0 <= k < s1.len() ==> (#[trigger] s1[k]).original_label@ == s2[k].original_label@,
        forall|k: int| 0 <= k < s1.len() ==> (#[trigger] s1[k]).label@ == s2[k].label@,
    ensures
        resolve_spec(s1, c) == resolve_spec(s2, c),
{
    lemma_last_match_congruence(s1, s2, c, s1.len() as int);
    lemma_last_orig_match(s1, c, s1.len() as int);
}

/// Determinism of mixing: for a fixed question list and a fixed variant
/// index, any two question lists that the mixer can produce are equal in
/// every observable field.  Together with the exam-code clauses of
/// `mix_exams`, two independent mixes of the same input with the same codes
/// are identical.
pub proof fn lemma_mix_deterministic(
    qs: Seq<Question>,
    vidx: int,
    m1: Seq<MixedQuestion>,
    m2: Seq<MixedQuestion>,
)
    requires
        mixed_variant_post(qs, vidx, m1),
        mixed_variant_post(qs, vidx, m2),
    ensures
        m1.len() == m2.len(),
        forall|j: int| 0 <= j < m1.len() ==> mq_eq(#[trigger] m1[j], m2[j]),
{
    let seed = variant_seed(vidx);
    let qp = shuffle_of(seed, ident_seq(qs.len()));
    assert forall|j: int| 0 <= j < m1.len() implies mq_eq(#[trigger] m1[j], m2[j]) by {
        let q = qs[qp[j] as int];
        assert(mixed_question_post(q, seed, j, m1[j]));
        assert(mixed_question_post(q, seed, j, m2[j]));
        let a = m1[j];
        let b = m2[j];
        let oseed = question_seed(seed, j);
        let p = shuffle_of(oseed, ident_seq(q.options@.len()));
        lemma_segs_eq_sym_trans(a.stem@, b.stem@, q.stem@);
        assert forall|k: int|
            0 <= k < a.options@.len() implies mo_eq(#[trigger] a.options@[k], b.options@[k]) by {
            lemma_segs_eq_sym_trans(
                a.options@[k].content@,
                b.options@[k].content@,
                q.options@[p[k] as int].content@,
            );
        }
        lemma_resolve_congruence(a.options@, b.options@, q.correct_label@);
    }
}

/// Some shuffled option carries over the given source option's label and
/// content.
pub open spec fn option_mapped(r: Seq<MixedOption>, o: OptionItem) -> bool {
    exists|k: int|
        0 <= k < r.len() && (#[trigger] r[k]).original_label@ == o.label@ && segs_eq(
            r[k].content@,
            o.content@,
        )
}

/// Soundness of one question's shuffled options: they are a permutation of
/// the source options (every source option appears, relabeled), the new
/// labels are exactly the first letters A.. by position, and exactly one
/// shuffled option carries the resolved correct answer label.
pub proof fn lemma_mixed_options_sound(
    opts: Seq<OptionItem>,
    seed: u64,
    r: Seq<MixedOption>,
    correct: Seq<char>,
)
    requires
        mixed_options_post(opts, seed, r),
        opts.len() <= 6,
        forall|i: int, j: int|
            0 <= i < opts.len() && 0 <= j < opts.len() && i != j ==> (#[trigger] opts[i]).label@
                != (#[trigger] opts[j]).label@,
        exists|i: int| 0 <= i < opts.len() && (#[trigger] opts[i]).label@ == correct,
    ensures
        r.len() == opts.len(),
        forall|k: int| 0 <= k < r.len() ==> (#[trigger] r[k]).label@ == label_seq(k),
        forall|m: int| 0 <= m < opts.len() ==> option_mapped(r, #[trigger] opts[m]),
        exists|k0: int| 0 <= k0 < r.len() && (#[trigger] r[k0]).label@ == resolve_spec(r, correct),
        forall|k1: int, k2: int|
            0 <= k1 < r.len() && 0 <= k2 < r.len() && (#[trigger] r[k1]).label@ == resolve_spec(
                r,
                correct,
            ) && (#[trigger] r[k2]).label@ == resolve_spec(r, correct) ==> k1 == k2,
{
    let p = shuffle_of(seed, ident_seq(opts.len()));
    lemma_is_perm_facts(p, opts.len());
    assert forall|m: int| 0 <= m < opts.len() implies option_mapped(r, #[trigger] opts[m]) by {
        assert(p.contains(m as usize));
        let k = choose|k: int| 0 <= k < p.len() && p[k] == m as usize;
        assert(r[k].original_label@ == opts[m].label@);
        assert(segs_eq(r[k].content@, opts[m].content@));
    }
    let i0 = choose|i: int| 0 <= i < opts.len() && (#[trigger] opts[i]).label@ == correct;
    assert(p.contains(i0 as usize));
    let kw = choose|k: int| 0 <= k < p.len() && p[k] == i0 as usize;
    assert(r[kw].original_label@ == correct);
    lemma_last_orig_match(r, correct, r.len() as int);
    let klast = last_orig_match(r, correct, r.len() as int);
    assert(klast >= 0);
    assert(r[klast].label@ == label_seq(klast));
    assert forall|j1: int, j2: int|
        0 <= j1 < r.len() && 0 <= j2 < r.len() && j1 != j2 implies (#[trigger] r[j1]).label@ != (
    #[trigger] r[j2]).label@ by {
        assert(label_char(j1) as u32 == 65 + j1);
        assert(label_char(j2) as u32 == 65 + j2);
        assert(label_seq(j1)[0] == label_char(j1));
        assert(label_seq(j2)[0] == label_char(j2));
    }
}

} // verus!
