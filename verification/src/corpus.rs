use vstd::prelude::*;

use crate::train::{assoc_get, SparseMap, StateKey};

verus! {

/// One DNA base.
#[derive(Copy, Clone, Debug, Eq, PartialEq, Hash, Structural)]
pub enum Base {
    A,
    C,
    T,
    G,
}

/// The base a character denotes, if any.
pub open spec fn base_of(c: char) -> Option<Base> {
    if c == 'a' {
        Some(Base::A)
    } else if c == 'c' {
        Some(Base::C)
    } else if c == 't' {
        Some(Base::T)
    } else if c == 'g' {
        Some(Base::G)
    } else {
        None
    }
}

/// An ASCII letter.
pub open spec fn spec_is_letter(c: char) -> bool {
    ('a' <= c && c <= 'z') || ('A' <= c && c <= 'Z')
}

/// Whether a character has the Unicode Alphabetic property: what
/// `char::is_alphabetic` tests, and the only characters `parse` may not
/// silently skip.
pub uninterp spec fn spec_alphabetic(c: char) -> bool;

/// Relies on `char::is_alphabetic` of the standard library: true exactly
/// on characters with the Unicode Alphabetic property, which within ASCII
/// are exactly the letters.
pub assume_specification[ char::is_alphabetic ](c: char) -> (r: bool)
    ensures
        r == spec_alphabetic(c),
        spec_is_letter(c) ==> r,
        c <= '\u{7f}' && !spec_is_letter(c) ==> !r,
;

/// Relies on the string formatting of the standard library: `{}` renders a
/// plain `char` as that character itself.
#[verifier::external_body]
fn invalid_base_msg(c: char) -> (r: String)
    ensures
        r@ == seq![c] + " is not a valid dna base"@,
{
    format!("{} is not a valid dna base", c)
}

impl Base {
    /// The base a character denotes; any other character is refused with a
    /// message naming it.
    pub fn from(c: char) -> (r: Result<Base, String>)
        ensures
            match r {
                Ok(b) => base_of(c) == Some(b),
                Err(m) => base_of(c) is None && m@ == seq![c] + " is not a valid dna base"@,
            },
    {
        if c == 'a' {
            Ok(Base::A)
        } else if c == 'c' {
            Ok(Base::C)
        } else if c == 't' {
            Ok(Base::T)
        } else if c == 'g' {
            Ok(Base::G)
        } else {
            Err(invalid_base_msg(c))
        }
    }
}

impl StateKey for Base {
    fn same(&self, other: &Self) -> (r: bool) {
        *self == *other
    }
}

/// Three bases read as one codon: the key of the instance tables.
#[derive(Copy, Clone, Debug, Eq, PartialEq, Hash, Structural)]
pub struct Codon(pub Base, pub Base, pub Base);

impl StateKey for Codon {
    fn same(&self, other: &Self) -> (r: bool) {
        self.0 == other.0 && self.1 == other.1 && self.2 == other.2
    }
}

/// What `parse` yields on a character sequence: bases for the base
/// letters, any other letter is an error naming the first one, and
/// anything else (whitespace, digits, punctuation) is skipped.
pub open spec fn parse_spec(s: Seq<char>) -> Result<Seq<Base>, char>
    decreases s.len(),
{
    if s.len() == 0 {
        Ok(Seq::empty())
    } else {
        let c = s[0];
        match base_of(c) {
            Some(b) => match parse_spec(s.drop_first()) {
                Ok(rest) => Ok(seq![b] + rest),
                Err(e) => Err(e),
            },
            None => if spec_alphabetic(c) {
                Err(c)
            } else {
                parse_spec(s.drop_first())
            },
        }
    }
}

/// Read a raw DNA string into bases, skipping layout characters such as
/// newlines; an alphabetic character that is no base is a parse error
/// naming it.
pub fn parse(dna: String) -> (r: Result<Vec<Base>, String>)
    ensures
        match r {
            Ok(v) => parse_spec(dna@) == Ok::<Seq<Base>, char>(v@),
            Err(m) => parse_spec(dna@) is Err && m@ == seq![parse_spec(dna@)->Err_0]
                + " is not a valid dna base"@,
        },
{
    let ghost s = dna@;
    let text = dna.as_str();
    let n = text.unicode_len();
    let mut out: Vec<Base> = Vec::new();
    let mut i: usize = 0;
    assert(s.skip(0) =~= s);
    while i < n
        invariant
            0 <= i <= n,
            n == s.len(),
            text@ == s,
            s == dna@,
            match parse_spec(s.skip(i as int)) {
                Ok(rest) => parse_spec(s) == Ok::<Seq<Base>, char>(out@ + rest),
                Err(e) => parse_spec(s) == Err::<Seq<Base>, char>(e),
            },
        decreases n - i,
    {
        proof {
            assert(s.skip(i as int)[0] == s[i as int]);
            assert(s.skip(i as int).drop_first() =~= s.skip(i + 1));
        }
        let c = text.get_char(i);
        match Base::from(c) {
            Ok(b) => {
                let ghost out_old = out@;
                out.push(b);
                proof {
                    if parse_spec(s.skip(i + 1)) is Ok {
                        let rest = parse_spec(s.skip(i + 1)).unwrap();
                        assert(out_old + (seq![b] + rest) =~= out@ + rest);
                    }
                }
            },
            Err(m) => {
                if c.is_alphabetic() {
                    proof {
                        assert(parse_spec(s.skip(i as int)) == Err::<Seq<Base>, char>(c));
                    }
                    return Err(m);
                }
            },
        }
        i = i + 1;
    }
    proof {
        assert(s.skip(n as int) =~= Seq::<char>::empty());
        assert(out@ + Seq::<Base>::empty() =~= out@);
    }
    Ok(out)
}

/// A hidden-state label for one DNA position: outside any gene, inside a
/// start or stop codon at one of its three offsets, or inside an internal
/// codon. Multi-instance labels carry the index of the distinct codon they
/// belong to, in order of first appearance.
#[derive(Copy, Clone, Debug, Eq, PartialEq, Hash, Structural)]
pub enum Label {
    NonCoding,
    StartCodon1,
    StartCodon2,
    StartCodon3,
    InternalCodon1(usize),
    InternalCodon2(usize),
    InternalCodon3(usize),
    StopCodon1(usize),
    StopCodon2(usize),
    StopCodon3(usize),
    Invalid,
}

impl StateKey for Label {
    fn same(&self, other: &Self) -> (r: bool) {
        match (self, other) {
            (Label::NonCoding, Label::NonCoding) => true,
            (Label::StartCodon1, Label::StartCodon1) => true,
            (Label::StartCodon2, Label::StartCodon2) => true,
            (Label::StartCodon3, Label::StartCodon3) => true,
            (Label::InternalCodon1(a), Label::InternalCodon1(b)) => a == b,
            (Label::InternalCodon2(a), Label::InternalCodon2(b)) => a == b,
            (Label::InternalCodon3(a), Label::InternalCodon3(b)) => a == b,
            (Label::StopCodon1(a), Label::StopCodon1(b)) => a == b,
            (Label::StopCodon2(a), Label::StopCodon2(b)) => a == b,
            (Label::StopCodon3(a), Label::StopCodon3(b)) => a == b,
            (Label::Invalid, Label::Invalid) => true,
            _ => false,
        }
    }
}

/// Which family of labels a multi-instance codon run produces.
#[derive(Copy, Clone, Debug, Eq, PartialEq, Structural)]
pub enum CodonKind {
    Internal,
    Stop,
}

/// The label for offset `i` of codon instance `k` of the given family.
pub open spec fn spec_codon_label(kind: CodonKind, i: int, k: nat) -> Label {
    match kind {
        CodonKind::Internal => if i == 0 {
            Label::InternalCodon1(k as usize)
        } else if i == 1 {
            Label::InternalCodon2(k as usize)
        } else if i == 2 {
            Label::InternalCodon3(k as usize)
        } else {
            Label::Invalid
        },
        CodonKind::Stop => if i == 0 {
            Label::StopCodon1(k as usize)
        } else if i == 1 {
            Label::StopCodon2(k as usize)
        } else if i == 2 {
            Label::StopCodon3(k as usize)
        } else {
            Label::Invalid
        },
    }
}

fn codon_label(kind: CodonKind, i: usize, k: usize) -> (r: Label)
    ensures
        r == spec_codon_label(kind, i as int, k as nat),
{
    match kind {
        CodonKind::Internal => {
            if i == 0 {
                Label::InternalCodon1(k)
            } else if i == 1 {
                Label::InternalCodon2(k)
            } else if i == 2 {
                Label::InternalCodon3(k)
            } else {
                Label::Invalid
            }
        },
        CodonKind::Stop => {
            if i == 0 {
                Label::StopCodon1(k)
            } else if i == 1 {
                Label::StopCodon2(k)
            } else if i == 2 {
                Label::StopCodon3(k)
            } else {
                Label::Invalid
            }
        },
    }
}

/// The emitted labels and the instance-table state after walking the
/// first `t` whole codons of a run.
pub open spec fn multi_codons_spec(
    bases: Seq<Base>,
    inst: Seq<(Codon, usize)>,
    kind: CodonKind,
    t: int,
) -> (Seq<(Label, Base)>, Seq<(Codon, usize)>)
    decreases t,
{
    if t <= 0 {
        (Seq::empty(), inst)
    } else {
        let (acc, table) = multi_codons_spec(bases, inst, kind, t - 1);
        let c0 = bases[3 * (t - 1)];
        let c1 = bases[3 * (t - 1) + 1];
        let c2 = bases[3 * (t - 1) + 2];
        let key = Codon(c0, c1, c2);
        let (k, table2): (nat, Seq<(Codon, usize)>) = match assoc_get(table, key) {
            Some(k) => (k as nat, table),
            None => (table.len(), table.push((key, table.len() as usize))),
        };
        (
            acc + seq![
                (spec_codon_label(kind, 0, k), c0),
                (spec_codon_label(kind, 1, k), c1),
                (spec_codon_label(kind, 2, k), c2),
            ],
            table2,
        )
    }
}

/// The labels `Labeler::noncoding` gives a run of bases.
pub open spec fn noncoding_spec(bases: Seq<Base>) -> Seq<(Label, Base)> {
    bases.map_values(|b: Base| (Label::NonCoding, b))
}

/// The labels `Labeler::start_codon` gives the three bases of a start
/// codon.
pub open spec fn start_codon_spec(bases: Seq<Base>) -> Seq<(Label, Base)> {
    seq![
        (Label::StartCodon1, bases[0]),
        (Label::StartCodon2, bases[1]),
        (Label::StartCodon3, bases[2]),
    ]
}

/// Turns runs of bases into labeled training points.
pub struct Labeler;

impl Labeler {
    /// Every base of a noncoding run is labeled `NonCoding`.
    pub fn noncoding(bases: &[Base]) -> (r: Vec<(Label, Base)>)
        ensures
            r@ == noncoding_spec(bases@),
    {
        let n = bases.len();
        let mut r: Vec<(Label, Base)> = Vec::new();
        let mut i: usize = 0;
        while i < n
            invariant
                0 <= i <= n,
                n == bases@.len(),
                r@.len() == i,
                forall|x: int| 0 <= x < i ==> (#[trigger] r@[x]) == (Label::NonCoding, bases@[x]),
            decreases n - i,
        {
            let b = bases[i];
            r.push((Label::NonCoding, b));
            i = i + 1;
        }
        proof {
            assert(r@ =~= noncoding_spec(bases@));
        }
        r
    }

    /// The three bases of a start codon get the three start labels.
    pub fn start_codon(bases: &[Base]) -> (r: Vec<(Label, Base)>)
        requires
            bases@.len() >= 3,
        ensures
            r@ == start_codon_spec(bases@),
    {
        let b0 = bases[0];
        let b1 = bases[1];
        let b2 = bases[2];
        let mut r: Vec<(Label, Base)> = Vec::new();
        r.push((Label::StartCodon1, b0));
        r.push((Label::StartCodon2, b1));
        r.push((Label::StartCodon3, b2));
        proof {
            assert(r@ =~= start_codon_spec(bases@));
        }
        r
    }

    /// Walk a run of whole codons, labeling each position with its offset
    /// and the index of the distinct codon it belongs to: a codon seen
    /// before reuses its index, a new one takes the next free index. The
    /// table of known codons is threaded through and updated in place.
    pub fn multi_instance_codons(
        bases: &[Base],
        instances: &mut SparseMap<Codon, usize>,
        kind: CodonKind,
    ) -> (r: Vec<(Label, Base)>)
        requires
            bases@.len() % 3 == 0,
        ensures
            ({
                let (emissions, table) = multi_codons_spec(
                    bases@,
                    old(instances)@,
                    kind,
                    bases@.len() as int / 3,
                );
                r@ == emissions && final(instances)@ == table
            }),
    {
        let ghost s = bases@;
        let ghost inst0 = instances@;
        let n = bases.len();
        let steps = n / 3;
        let mut emissions: Vec<(Label, Base)> = Vec::new();
        let mut t: usize = 0;
        while t < steps
            invariant
                0 <= t <= steps,
                steps == n / 3,
                n == s.len(),
                s == bases@,
                n % 3 == 0,
                inst0 == old(instances)@,
                (emissions@, instances@) == multi_codons_spec(s, inst0, kind, t as int),
            decreases steps - t,
        {
            let c0 = bases[3 * t];
            let c1 = bases[3 * t + 1];
            let c2 = bases[3 * t + 2];
            let key = Codon(c0, c1, c2);
            let k: usize = match instances.get(&key) {
                Some(k) => k,
                None => {
                    let fresh = instances.len();
                    let ghost tb = instances@;
                    instances.insert(key, fresh);
                    proof {
                        crate::train::lemma_assoc_set_absent(tb, key, fresh);
                    }
                    fresh
                },
            };
            emissions.push((codon_label(kind, 0, k), c0));
            emissions.push((codon_label(kind, 1, k), c1));
            emissions.push((codon_label(kind, 2, k), c2));
            proof {
                let (se, st) = multi_codons_spec(s, inst0, kind, t + 1);
                assert(emissions@ =~= se);
            }
            t = t + 1;
        }
        emissions
    }

    /// Internal-codon labels for a run of whole codons.
    pub fn internal_codons(
        bases: &[Base],
        instances: &mut SparseMap<Codon, usize>,
    ) -> (r: Vec<(Label, Base)>)
        requires
            bases@.len() % 3 == 0,
        ensures
            ({
                let (emissions, table) = multi_codons_spec(
                    bases@,
                    old(instances)@,
                    CodonKind::Internal,
                    bases@.len() as int / 3,
                );
                r@ == emissions && final(instances)@ == table
            }),
    {
        Labeler::multi_instance_codons(bases, instances, CodonKind::Internal)
    }

    /// Stop-codon labels for a run of whole codons.
    pub fn stop_codon(
        bases: &[Base],
        instances: &mut SparseMap<Codon, usize>,
    ) -> (r: Vec<(Label, Base)>)
        requires
            bases@.len() % 3 == 0,
        ensures
            ({
                let (emissions, table) = multi_codons_spec(
                    bases@,
                    old(instances)@,
                    CodonKind::Stop,
                    bases@.len() as int / 3,
                );
                r@ == emissions && final(instances)@ == table
            }),
    {
        Labeler::multi_instance_codons(bases, instances, CodonKind::Stop)
    }
}

/// A digit character.
pub open spec fn digit_char(d: nat) -> char {
    ((48 + d) as u8) as char
}

/// The decimal digits of `n`, most significant first.
pub open spec fn dec_digits(n: nat) -> Seq<char>
    decreases n,
{
    if n < 10 {
        seq![digit_char(n)]
    } else {
        dec_digits(n / 10).push(digit_char(n % 10))
    }
}

/// Relies on the standard library's integer formatting: a `usize` renders
/// as its decimal digits.
#[verifier::external_body]
fn usize_str(n: usize) -> (r: String)
    ensures
        r@ == dec_digits(n as nat),
{
    format!("{}", n)
}

/// A genome sequence annotation: the 0-based half-open span of the
/// sequence and the spans of its genes within it.
#[derive(Debug, PartialEq)]
pub struct Sequence {
    pub start: usize,
    pub end: usize,
    pub genes: Vec<(usize, usize)>,
}

/// Which labeler a range is handed to.
#[derive(Copy, Clone, Debug, Eq, PartialEq, Structural)]
pub enum LabelClass {
    NonCoding,
    StartCodon,
    InternalCodon,
    StopCodon,
}

/// A half-open range of the sequence together with its label class.
#[derive(Copy, Clone, Debug, Eq, PartialEq)]
pub struct LabeledRange {
    pub class: LabelClass,
    pub range: (usize, usize),
}

/// Every gene span has room for a start and a stop codon.
pub open spec fn genes_wf(genes: Seq<(usize, usize)>) -> bool {
    forall|i: int| 0 <= i < genes.len() ==> (#[trigger] genes[i]).0 + 6 <= genes[i].1
}

/// The noncoding spans: before the first gene, between genes, and after
/// the last gene; none at all when there are no genes.
pub open spec fn noncoding_ranges_spec(s: Sequence) -> Seq<(usize, usize)> {
    let genes = s.genes@;
    if genes.len() == 0 {
        Seq::empty()
    } else {
        Seq::new(
            genes.len(),
            |i: int|
                if i == 0 {
                    (s.start, genes[0].0)
                } else {
                    (genes[i - 1].1, genes[i].0)
                },
        ).push((genes[genes.len() - 1].1, s.end))
    }
}

/// Where the stable sort puts `x`: after every range whose start does not
/// exceed its own, before the first with a greater start.
pub open spec fn insert_by_start(s: Seq<LabeledRange>, x: LabeledRange) -> Seq<LabeledRange>
    decreases s.len(),
{
    if s.len() == 0 {
        seq![x]
    } else if s[0].range.0 <= x.range.0 {
        seq![s[0]] + insert_by_start(s.drop_first(), x)
    } else {
        seq![x] + s
    }
}

/// The first `k` pool entries sorted by range start, stably: ranges
/// sharing a start keep their pool order.
pub open spec fn sort_by_start(pool: Seq<LabeledRange>, k: int) -> Seq<LabeledRange>
    decreases k,
{
    if k <= 0 {
        Seq::empty()
    } else {
        insert_by_start(sort_by_start(pool, k - 1), pool[k - 1])
    }
}

proof fn lemma_insert_by_start(s: Seq<LabeledRange>, x: LabeledRange, pos: int)
    requires
        0 <= pos <= s.len(),
        forall|y: int| 0 <= y < pos ==> (#[trigger] s[y]).range.0 <= x.range.0,
        pos < s.len() ==> s[pos].range.0 > x.range.0,
    ensures
        insert_by_start(s, x) == s.subrange(0, pos) + seq![x] + s.subrange(pos, s.len() as int),
    decreases s.len(),
{
    if pos == 0 {
        if s.len() == 0 {
            assert(seq![x] =~= s.subrange(0, 0) + seq![x] + s.subrange(0, 0));
        } else {
            assert(seq![x] + s =~= s.subrange(0, 0) + seq![x] + s.subrange(0, s.len() as int));
        }
    } else {
        lemma_insert_by_start(s.drop_first(), x, pos - 1);
        assert(seq![s[0]] + (s.drop_first().subrange(0, pos - 1) + seq![x]
            + s.drop_first().subrange(pos - 1, s.drop_first().len() as int)) =~= s.subrange(0, pos)
            + seq![x] + s.subrange(pos, s.len() as int));
    }
}

/// Sorted by range start, never decreasing.
pub open spec fn sorted_by_start(s: Seq<LabeledRange>) -> bool {
    forall|a: int, b: int| 0 <= a < b < s.len() ==> (#[trigger] s[a]).range.0 <= (#[trigger] s[b]).range.0
}

/// The unsorted pool of labeled ranges: all start codons, all stop codons,
/// all internal-codon spans, then all noncoding spans.
pub open spec fn labeled_pool(s: Sequence) -> Seq<LabeledRange> {
    let genes = s.genes@;
    Seq::new(
        genes.len(),
        |i: int| LabeledRange {
            class: LabelClass::StartCodon,
            range: (genes[i].0, (genes[i].0 + 3) as usize),
        },
    ) + Seq::new(
        genes.len(),
        |i: int| LabeledRange {
            class: LabelClass::StopCodon,
            range: ((genes[i].1 - 3) as usize, genes[i].1),
        },
    ) + Seq::new(
        genes.len(),
        |i: int| LabeledRange {
            class: LabelClass::InternalCodon,
            range: ((genes[i].0 + 3) as usize, (genes[i].1 - 3) as usize),
        },
    ) + noncoding_ranges_spec(s).map_values(
        |r: (usize, usize)| LabeledRange { class: LabelClass::NonCoding, range: r },
    )
}

impl Sequence {
    /// The first three positions of each gene.
    pub fn start_codon_ranges(&self) -> (r: Vec<(usize, usize)>)
        requires
            genes_wf(self.genes@),
        ensures
            r@ == Seq::new(
                self.genes@.len(),
                |i: int| (self.genes@[i].0, (self.genes@[i].0 + 3) as usize),
            ),
    {
        let n = self.genes.len();
        let mut r: Vec<(usize, usize)> = Vec::new();
        let mut i: usize = 0;
        while i < n
            invariant
                0 <= i <= n,
                n == self.genes@.len(),
                genes_wf(self.genes@),
                r@.len() == i,
                forall|x: int|
                    0 <= x < i ==> (#[trigger] r@[x]) == (
                        self.genes@[x].0,
                        (self.genes@[x].0 + 3) as usize,
                    ),
            decreases n - i,
        {
            let (gs, _ge) = self.genes[i];
            r.push((gs, gs + 3));
            i = i + 1;
        }
        proof {
            assert(r@ =~= Seq::new(
                self.genes@.len(),
                |i: int| (self.genes@[i].0, (self.genes@[i].0 + 3) as usize),
            ));
        }
        r
    }

    /// The last three positions of each gene.
    pub fn stop_codon_ranges(&self) -> (r: Vec<(usize, usize)>)
        requires
            genes_wf(self.genes@),
        ensures
            r@ == Seq::new(
                self.genes@.len(),
                |i: int| ((self.genes@[i].1 - 3) as usize, self.genes@[i].1),
            ),
    {
        let n = self.genes.len();
        let mut r: Vec<(usize, usize)> = Vec::new();
        let mut i: usize = 0;
        while i < n
            invariant
                0 <= i <= n,
                n == self.genes@.len(),
                genes_wf(self.genes@),
                r@.len() == i,
                forall|x: int|
                    0 <= x < i ==> (#[trigger] r@[x]) == (
                        (self.genes@[x].1 - 3) as usize,
                        self.genes@[x].1,
                    ),
            decreases n - i,
        {
            let (_gs, ge) = self.genes[i];
            r.push((ge - 3, ge));
            i = i + 1;
        }
        proof {
            assert(r@ =~= Seq::new(
                self.genes@.len(),
                |i: int| ((self.genes@[i].1 - 3) as usize, self.genes@[i].1),
            ));
        }
        r
    }

    /// Each gene's interior: between its start and stop codons.
    pub fn internal_codon_ranges(&self) -> (r: Vec<(usize, usize)>)
        requires
            genes_wf(self.genes@),
        ensures
            r@ == Seq::new(
                self.genes@.len(),
                |i: int| ((self.genes@[i].0 + 3) as usize, (self.genes@[i].1 - 3) as usize),
            ),
    {
        let n = self.genes.len();
        let mut r: Vec<(usize, usize)> = Vec::new();
        let mut i: usize = 0;
        while i < n
            invariant
                0 <= i <= n,
                n == self.genes@.len(),
                genes_wf(self.genes@),
                r@.len() == i,
                forall|x: int|
                    0 <= x < i ==> (#[trigger] r@[x]) == (
                        (self.genes@[x].0 + 3) as usize,
                        (self.genes@[x].1 - 3) as usize,
                    ),
            decreases n - i,
        {
            let (gs, ge) = self.genes[i];
            r.push((gs + 3, ge - 3));
            i = i + 1;
        }
        proof {
            assert(r@ =~= Seq::new(
                self.genes@.len(),
                |i: int| ((self.genes@[i].0 + 3) as usize, (self.genes@[i].1 - 3) as usize),
            ));
        }
        r
    }

    /// The spans between the sequence bounds and its genes.
    pub fn noncoding_ranges(&self) -> (r: Vec<(usize, usize)>)
        ensures
            r@ == noncoding_ranges_spec(*self),
    {
        let n = self.genes.len();
        let mut r: Vec<(usize, usize)> = Vec::new();
        let mut i: usize = 0;
        while i < n
            invariant
                0 <= i <= n,
                n == self.genes@.len(),
                r@.len() == (if i == n && n > 0 { n + 1 } else { i as int }),
                forall|x: int|
                    0 <= x < i ==> (#[trigger] r@[x]) == (
                        if x == 0 {
                            (self.start, self.genes@[0].0)
                        } else {
                            (self.genes@[x - 1].1, self.genes@[x].0)
                        }
                    ),
                n > 0 && i == n ==> r@[n as int] == (self.genes@[n - 1].1, self.end),
            decreases n - i,
        {
            let (gstart, gend) = self.genes[i];
            if i == 0 {
                r.push((self.start, gstart));
            } else {
                let (_, last_gend) = self.genes[i - 1];
                r.push((last_gend, gstart));
            }
            if i == n - 1 {
                r.push((gend, self.end));
            }
            i = i + 1;
        }
        proof {
            assert(r@ =~= noncoding_ranges_spec(*self));
        }
        r
    }

    /// All labeled ranges of the sequence, ordered by starting position;
    /// the order of ranges sharing a start keeps the pool order (start
    /// codons, stop codons, internal spans, noncoding spans).
    #[verifier::rlimit(40)]
    pub fn labeled_ranges(&self) -> (r: Vec<LabeledRange>)
        requires
            genes_wf(self.genes@),
        ensures
            r@ == sort_by_start(labeled_pool(*self), labeled_pool(*self).len() as int),
            r@.to_multiset() == labeled_pool(*self).to_multiset(),
            sorted_by_start(r@),
    {
        broadcast use vstd::seq_lib::group_to_multiset_ensures;

        let ghost pool_spec = labeled_pool(*self);
        let starts = self.start_codon_ranges();
        let stops = self.stop_codon_ranges();
        let internals = self.internal_codon_ranges();
        let noncodings = self.noncoding_ranges();
        let gn = starts.len();
        let nn = noncodings.len();
        let mut pool: Vec<LabeledRange> = Vec::new();
        let mut i: usize = 0;
        while i < gn
            invariant
                0 <= i <= gn,
                gn == starts@.len(),
                pool@.len() == i,
                forall|x: int|
                    0 <= x < i ==> (#[trigger] pool@[x]) == (LabeledRange {
                        class: LabelClass::StartCodon,
                        range: starts@[x],
                    }),
            decreases gn - i,
        {
            let rg = starts[i];
            pool.push(LabeledRange { class: LabelClass::StartCodon, range: rg });
            i = i + 1;
        }
        let mut i2: usize = 0;
        while i2 < gn
            invariant
                0 <= i2 <= gn,
                gn == starts@.len(),
                gn == stops@.len(),
                pool@.len() == gn + i2,
                forall|x: int|
                    0 <= x < gn ==> (#[trigger] pool@[x]) == (LabeledRange {
                        class: LabelClass::StartCodon,
                        range: starts@[x],
                    }),
                forall|x: int|
                    0 <= x < i2 ==> (#[trigger] pool@[gn + x]) == (LabeledRange {
                        class: LabelClass::StopCodon,
                        range: stops@[x],
                    }),
            decreases gn - i2,
        {
            let rg = stops[i2];
            pool.push(LabeledRange { class: LabelClass::StopCodon, range: rg });
            i2 = i2 + 1;
        }
        let mut i3: usize = 0;
        while i3 < gn
            invariant
                0 <= i3 <= gn,
                gn == starts@.len(),
                gn == stops@.len(),
                gn == internals@.len(),
                pool@.len() == 2 * gn + i3,
                forall|x: int|
                    0 <= x < gn ==> (#[trigger] pool@[x]) == (LabeledRange {
                        class: LabelClass::StartCodon,
                        range: starts@[x],
                    }),
                forall|x: int|
                    0 <= x < gn ==> (#[trigger] pool@[gn + x]) == (LabeledRange {
                        class: LabelClass::StopCodon,
                        range: stops@[x],
                    }),
                forall|x: int|
                    0 <= x < i3 ==> (#[trigger] pool@[2 * gn + x]) == (LabeledRange {
                        class: LabelClass::InternalCodon,
                        range: internals@[x],
                    }),
            decreases gn - i3,
        {
            let rg = internals[i3];
            pool.push(LabeledRange { class: LabelClass::InternalCodon, range: rg });
            i3 = i3 + 1;
        }
        let mut i4: usize = 0;
        while i4 < nn
            invariant
                0 <= i4 <= nn,
                gn == starts@.len(),
                gn == stops@.len(),
                gn == internals@.len(),
                nn == noncodings@.len(),
                pool@.len() == 3 * gn + i4,
                forall|x: int|
                    0 <= x < gn ==> (#[trigger] pool@[x]) == (LabeledRange {
                        class: LabelClass::StartCodon,
                        range: starts@[x],
                    }),
                forall|x: int|
                    0 <= x < gn ==> (#[trigger] pool@[gn + x]) == (LabeledRange {
                        class: LabelClass::StopCodon,
                        range: stops@[x],
                    }),
                forall|x: int|
                    0 <= x < gn ==> (#[trigger] pool@[2 * gn + x]) == (LabeledRange {
                        class: LabelClass::InternalCodon,
                        range: internals@[x],
                    }),
                forall|x: int|
                    0 <= x < i4 ==> (#[trigger] pool@[3 * gn + x]) == (LabeledRange {
                        class: LabelClass::NonCoding,
                        range: noncodings@[x],
                    }),
            decreases nn - i4,
        {
            let rg = noncodings[i4];
            pool.push(LabeledRange { class: LabelClass::NonCoding, range: rg });
            i4 = i4 + 1;
        }
        proof {
            assert(pool_spec.len() == 3 * gn + nn);
            assert forall|x: int| 0 <= x < pool@.len() implies pool@[x] == pool_spec[x] by {
                if x < gn {
                    assert(pool@[x] == (LabeledRange {
                        class: LabelClass::StartCodon,
                        range: starts@[x],
                    }));
                } else if x < 2 * gn {
                    assert(pool@[gn + (x - gn)] == (LabeledRange {
                        class: LabelClass::StopCodon,
                        range: stops@[x - gn],
                    }));
                } else if x < 3 * gn {
                    assert(pool@[2 * gn + (x - 2 * gn)] == (LabeledRange {
                        class: LabelClass::InternalCodon,
                        range: internals@[x - 2 * gn],
                    }));
                } else {
                    assert(pool@[3 * gn + (x - 3 * gn)] == (LabeledRange {
                        class: LabelClass::NonCoding,
                        range: noncodings@[x - 3 * gn],
                    }));
                }
            }
            assert(pool@ =~= pool_spec);
        }
        // stable insertion sort by range start
        let mut res: Vec<LabeledRange> = Vec::new();
        let mut k: usize = 0;
        assert(pool@.take(0) =~= Seq::<LabeledRange>::empty());
        while k < pool.len()
            invariant
                0 <= k <= pool@.len(),
                pool@ == pool_spec,
                res@ == sort_by_start(pool_spec, k as int),
                res@.to_multiset() == pool@.take(k as int).to_multiset(),
                sorted_by_start(res@),
                res@.len() == k,
            decreases pool@.len() - k,
        {
            let x = pool[k];
            let mut pos: usize = 0;
            while pos < res.len() && res[pos].range.0 <= x.range.0
                invariant
                    0 <= pos <= res@.len(),
                    forall|y: int| 0 <= y < pos ==> (#[trigger] res@[y]).range.0 <= x.range.0,
                decreases res@.len() - pos,
            {
                pos = pos + 1;
            }
            let ghost res_old = res@;
            proof {
                assert(pos < res_old.len() ==> res_old[pos as int].range.0 > x.range.0);
            }
            res.insert(pos, x);
            proof {
                res@.to_multiset_ensures();
                res_old.to_multiset_ensures();
                pool@.take(k as int).to_multiset_ensures();
                assert(res@[pos as int] == x);
                assert(res@.remove(pos as int) =~= res_old);
                assert(res@.remove(pos as int).to_multiset() =~= res_old.to_multiset());
                assert(res@.to_multiset().remove(x) =~= res_old.to_multiset());
                assert(res@.contains(x));
                assert(res@.to_multiset() =~= res_old.to_multiset().insert(x));
                assert(pool@.take(k + 1).drop_last() =~= pool@.take(k as int));
                assert(pool@.take(k + 1) =~= pool@.take(k as int).push(x));
                let ghost ll = res_old.len() as int;
                lemma_insert_by_start(res_old, x, pos as int);
                assert(res@ =~= res_old.subrange(0, pos as int) + seq![x] + res_old.subrange(
                    pos as int,
                    ll,
                ));
                assert forall|a: int, b: int|
                    0 <= a < b < res@.len() implies (#[trigger] res@[a]).range.0 <= (
                #[trigger] res@[b]).range.0 by {
                    if a < pos {
                        assert(res@[a] == res_old[a]);
                    } else if a == pos {
                        assert(res@[a] == x);
                    } else {
                        assert(res@[a] == res_old[a - 1]);
                    }
                    if b < pos {
                        assert(res@[b] == res_old[b]);
                    } else if b == pos {
                        assert(res@[b] == x);
                    } else {
                        assert(res@[b] == res_old[b - 1]);
                    }
                }
            }
            k = k + 1;
        }
        proof {
            assert(pool@.take(pool@.len() as int) =~= pool@);
        }
        res
    }
}

/// Append a copy of every element of `src` to `dst`.
fn push_all<T: Copy>(dst: &mut Vec<T>, src: &Vec<T>)
    ensures
        final(dst)@ == old(dst)@ + src@,
{
    let n = src.len();
    let mut i: usize = 0;
    while i < n
        invariant
            0 <= i <= n,
            n == src@.len(),
            dst@ == old(dst)@ + src@.take(i as int),
        decreases n - i,
    {
        let x = src[i];
        dst.push(x);
        proof {
            assert(old(dst)@ + src@.take(i + 1) =~= (old(dst)@ + src@.take(i as int)).push(
                src@[i as int],
            ));
        }
        i = i + 1;
    }
    proof {
        assert(src@.take(n as int) =~= src@);
    }
}

/// Genes are in order, disjoint, inside the sequence span and the DNA, and
/// each has whole-codon length with room for a start and a stop codon.
pub open spec fn label_ready(s: Sequence, n: nat) -> bool {
    let genes = s.genes@;
    &&& genes_wf(genes)
    &&& forall|i: int| 0 <= i < genes.len() ==> ((#[trigger] genes[i]).1 - genes[i].0) % 3 == 0
    &&& forall|i: int| 0 <= i + 1 < genes.len() ==> (#[trigger] genes[i]).1 <= genes[i + 1].0
    &&& forall|i: int| 0 <= i < genes.len() ==> (#[trigger] genes[i]).1 <= s.end
    &&& (genes.len() > 0 ==> s.start <= genes[0].0)
    &&& s.start <= s.end <= n
}

/// The emissions and the two codon-instance tables after labeling the
/// first `i` genes and the noncoding span before each.
pub open spec fn gene_fold(s: Sequence, dna: Seq<Base>, i: int) -> (
    Seq<(Label, Base)>,
    Seq<(Codon, usize)>,
    Seq<(Codon, usize)>,
)
    decreases i,
{
    if i <= 0 {
        (Seq::empty(), Seq::empty(), Seq::empty())
    } else {
        let (acc, it, st) = gene_fold(s, dna, i - 1);
        let gs = s.genes@[i - 1].0 as int;
        let ge = s.genes@[i - 1].1 as int;
        let prev_end = if i == 1 {
            s.start as int
        } else {
            s.genes@[i - 2].1 as int
        };
        let nc = noncoding_spec(dna.subrange(prev_end, gs));
        let sc = start_codon_spec(dna.subrange(gs, gs + 3));
        let (ic, it2) = multi_codons_spec(
            dna.subrange(gs + 3, ge - 3),
            it,
            CodonKind::Internal,
            (ge - 3 - (gs + 3)) / 3,
        );
        let (sp, st2) = multi_codons_spec(dna.subrange(ge - 3, ge), st, CodonKind::Stop, 1);
        (acc + nc + sc + ic + sp, it2, st2)
    }
}

/// The full labeling of a DNA slice under a sequence annotation: each
/// gene's preceding noncoding span, its start codon, its internal codons
/// and its stop codon in positional order, closed by the noncoding span
/// after the last gene; empty when there are no genes.
pub open spec fn label_dna_spec(s: Sequence, dna: Seq<Base>) -> Seq<(Label, Base)> {
    let genes = s.genes@;
    if genes.len() == 0 {
        Seq::empty()
    } else {
        let (acc, it, st) = gene_fold(s, dna, genes.len() as int);
        acc + noncoding_spec(dna.subrange(genes[genes.len() - 1].1 as int, s.end as int))
    }
}

impl Sequence {
    /// Label every position of the annotated span of `dna` with its hidden
    /// state, yielding the training points in positional order. Internal
    /// and stop codons are numbered by distinct codon across the whole
    /// sequence, each family in its own table.
    #[verifier::rlimit(40)]
    pub fn label_dna(&self, dna: &[Base]) -> (r: Vec<(Label, Base)>)
        requires
            label_ready(*self, dna@.len()),
        ensures
            r@ == label_dna_spec(*self, dna@),
    {
        let gn = self.genes.len();
        let mut emissions: Vec<(Label, Base)> = Vec::new();
        if gn == 0 {
            return emissions;
        }
        let mut internal_codon_table: SparseMap<Codon, usize> = SparseMap::new();
        let mut stop_codon_table: SparseMap<Codon, usize> = SparseMap::new();
        let mut i: usize = 0;
        while i < gn
            invariant
                0 <= i <= gn,
                gn == self.genes@.len(),
                gn > 0,
                label_ready(*self, dna@.len()),
                ({
                    let (acc, it, st) = gene_fold(*self, dna@, i as int);
                    emissions@ == acc && internal_codon_table@ == it && stop_codon_table@ == st
                }),
            decreases gn - i,
        {
            let (gs, ge) = self.genes[i];
            let prev_end = if i == 0 {
                self.start
            } else {
                self.genes[i - 1].1
            };
            proof {
                assert(self.genes@[i as int].0 + 6 <= self.genes@[i as int].1);
                assert((self.genes@[i as int].1 - self.genes@[i as int].0) % 3 == 0);
                assert((ge - 3 - (gs + 3)) % 3 == 0) by {
                    assert(ge - gs - 6 == (ge - gs) - 6);
                }
            }
            let nc = Labeler::noncoding(vstd::slice::slice_subrange(dna, prev_end, gs));
            push_all(&mut emissions, &nc);
            let sc = Labeler::start_codon(vstd::slice::slice_subrange(dna, gs, gs + 3));
            push_all(&mut emissions, &sc);
            let ic = Labeler::internal_codons(
                vstd::slice::slice_subrange(dna, gs + 3, ge - 3),
                &mut internal_codon_table,
            );
            push_all(&mut emissions, &ic);
            let sp = Labeler::stop_codon(
                vstd::slice::slice_subrange(dna, ge - 3, ge),
                &mut stop_codon_table,
            );
            push_all(&mut emissions, &sp);
            i = i + 1;
        }
        let last_end = self.genes[gn - 1].1;
        let nc = Labeler::noncoding(vstd::slice::slice_subrange(dna, last_end, self.end));
        push_all(&mut emissions, &nc);
        emissions
    }

    /// The annotation a list of 1-based bounds describes: the first pair
    /// is the inclusive span of the sequence, each later pair one gene;
    /// written starts are 1-based and become 0-based, ends stay inclusive
    /// upper bounds. Refused unless the bounds come in at least one pair,
    /// whole pairs, with every start at least one.
    pub fn from_numbers(nums: &Vec<usize>) -> (r: Result<Sequence, String>)
        ensures
            r is Ok <==> nums@.len() >= 2 && nums@.len() % 2 == 0 && (forall|k: int|
                0 <= k < nums@.len() && k % 2 == 0 ==> #[trigger] nums@[k] >= 1),
            match r {
                Ok(sq) => sq.start == nums@[0] - 1 && sq.end == nums@[1] && sq.genes@.len() == (
                nums@.len() - 2) / 2 && forall|g: int|
                    0 <= g < sq.genes@.len() ==> #[trigger] sq.genes@[g] == (
                    ((nums@[2 * g + 2] - 1) as usize, nums@[2 * g + 3]),
                ).0,
                Err(_) => true,
            },
    {
        if nums.len() < 2 || nums.len() % 2 != 0 {
            return Err(<String as vstd::string::StringExecFns>::from_str(
                "sequence description needs pairs of bounds",
            ));
        }
        let first = nums[0];
        if first == 0 {
            return Err(<String as vstd::string::StringExecFns>::from_str(
                "bounds in a sequence description are 1-based",
            ));
        }
        let seq_start = first - 1;
        let seq_end = nums[1];
        let mut genes: Vec<(usize, usize)> = Vec::new();
        let mut p: usize = 2;
        while p + 1 < nums.len()
            invariant
                2 <= p <= nums@.len(),
                p % 2 == 0,
                nums@.len() % 2 == 0,
                nums@.len() >= 2,
                genes@.len() == (p - 2) / 2,
                forall|k: int| 0 <= k < p && k % 2 == 0 ==> #[trigger] nums@[k] >= 1,
                forall|g: int|
                    0 <= g < genes@.len() ==> #[trigger] genes@[g] == (
                    ((nums@[2 * g + 2] - 1) as usize, nums@[2 * g + 3]),
                ).0,
            decreases nums@.len() - p,
        {
            let gs = nums[p];
            if gs == 0 {
                return Err(<String as vstd::string::StringExecFns>::from_str(
                    "bounds in a sequence description are 1-based",
                ));
            }
            genes.push((gs - 1, nums[p + 1]));
            p = p + 2;
        }
        proof {
            assert(p == nums@.len()) by {
                assert((nums@.len() - p) % 2 == 0);
            }
        }
        Ok(Sequence { start: seq_start, end: seq_end, genes })
    }

    /// The annotation rendered back in its 1-based written form.
    pub fn display(&self) -> (r: String)
        requires
            self.start < usize::MAX,
            forall|i: int| 0 <= i < self.genes@.len() ==> (#[trigger] self.genes@[i]).0 < usize::MAX,
        ensures
            r@ == display_spec(*self),
    {
        let mut out = usize_str(self.start + 1);
        out.append("-");
        let endp = usize_str(self.end);
        out.append(endp.as_str());
        out.append(":");
        let gn = self.genes.len();
        let mut i: usize = 0;
        while i < gn
            invariant
                0 <= i <= gn,
                gn == self.genes@.len(),
                self.start < usize::MAX,
                forall|x: int|
                    0 <= x < self.genes@.len() ==> (#[trigger] self.genes@[x]).0 < usize::MAX,
                out@ == dec_digits((self.start + 1) as nat) + "-"@ + dec_digits(self.end as nat)
                    + ":"@ + display_genes(self.genes@, i as int),
            decreases gn - i,
        {
            let (gs, ge) = self.genes[i];
            out.append(" [");
            let a = usize_str(gs + 1);
            out.append(a.as_str());
            out.append(", ");
            let b = usize_str(ge);
            out.append(b.as_str());
            out.append("]");
            i = i + 1;
        }
        out
    }
}

/// One gene rendered for `display`.
pub open spec fn display_gene(g: (usize, usize)) -> Seq<char> {
    " ["@ + dec_digits((g.0 + 1) as nat) + ", "@ + dec_digits(g.1 as nat) + "]"@
}

/// The first `i` genes rendered for `display`.
pub open spec fn display_genes(genes: Seq<(usize, usize)>, i: int) -> Seq<char>
    decreases i,
{
    if i <= 0 {
        Seq::empty()
    } else {
        display_genes(genes, i - 1) + display_gene(genes[i - 1])
    }
}

/// The whole annotation rendered for `display`.
pub open spec fn display_spec(s: Sequence) -> Seq<char> {
    dec_digits((s.start + 1) as nat) + "-"@ + dec_digits(s.end as nat) + ":"@ + display_genes(
        s.genes@,
        s.genes@.len() as int,
    )
}

/// A byte of ASCII whitespace, for the written annotation format.
fn is_sep(b: u8) -> (r: bool)
    ensures
        r == (b == 32 || b == 9 || b == 10 || b == 13),
{
    b == 32 || b == 9 || b == 10 || b == 13
}

/// A byte the written format wraps numbers in.
fn is_wrap(b: u8) -> (r: bool)
    ensures
        r == (b == 44 || b == 91 || b == 93),
{
    b == 44 || b == 91 || b == 93
}

/// The value of a run of decimal digit bytes, most significant first.
pub open spec fn digits_val(s: Seq<u8>, a: int, e: int) -> int
    decreases e - a,
{
    if e <= a {
        0
    } else {
        digits_val(s, a, e - 1) * 10 + (s[e - 1] - 48)
    }
}

/// Every byte in `[a, e)` is a decimal digit.
pub open spec fn all_digits(s: Seq<u8>, a: int, e: int) -> bool {
    forall|k: int| a <= k < e ==> 48 <= #[trigger] s[k] <= 57
}

proof fn lemma_digits_val_nonneg(s: Seq<u8>, a: int, e: int)
    requires
        a <= e,
        all_digits(s, a, e),
    ensures
        digits_val(s, a, e) >= 0,
    decreases e - a,
{
    if e > a {
        lemma_digits_val_nonneg(s, a, e - 1);
    }
}

proof fn lemma_digits_val_grows(s: Seq<u8>, a: int, k: int, e: int)
    requires
        a <= k <= e,
        all_digits(s, a, e),
    ensures
        0 <= digits_val(s, a, k) <= digits_val(s, a, e),
    decreases e - k,
{
    lemma_digits_val_nonneg(s, a, k);
    if k < e {
        lemma_digits_val_grows(s, a, k + 1, e);
        assert(digits_val(s, a, k + 1) == digits_val(s, a, k) * 10 + (s[k] - 48));
    }
}

/// Read the decimal number written in `bytes[a..e]`: refused unless the
/// run is nonempty, all digits, and its value fits the machine word.
fn parse_number(bytes: &[u8], a: usize, e: usize) -> (r: Result<usize, String>)
    requires
        a <= e <= bytes@.len(),
    ensures
        r is Ok <==> a < e && all_digits(bytes@, a as int, e as int) && digits_val(
            bytes@,
            a as int,
            e as int,
        ) <= usize::MAX,
        match r {
            Ok(v) => v == digits_val(bytes@, a as int, e as int),
            Err(_) => true,
        },
{
    if a == e {
        return Err(<String as vstd::string::StringExecFns>::from_str(
            "empty term in sequence description",
        ));
    }
    let mut v: usize = 0;
    let mut k = a;
    while k < e
        invariant
            a <= k <= e <= bytes@.len(),
            a < e,
            all_digits(bytes@, a as int, k as int),
            v == digits_val(bytes@, a as int, k as int),
        decreases e - k,
    {
        let d = bytes[k];
        if d < 48 || d > 57 {
            proof {
                assert(!all_digits(bytes@, a as int, e as int));
            }
            return Err(<String as vstd::string::StringExecFns>::from_str(
                "term in sequence description is not a number",
            ));
        }
        let scaled = match v.checked_mul(10) {
            Some(x) => x,
            None => {
                proof {
                    if all_digits(bytes@, a as int, e as int) {
                        lemma_digits_val_grows(bytes@, a as int, k + 1, e as int);
                    }
                }
                return Err(<String as vstd::string::StringExecFns>::from_str(
                    "number in sequence description is too large",
                ));
            },
        };
        let v2 = match scaled.checked_add((d - 48) as usize) {
            Some(x) => x,
            None => {
                proof {
                    if all_digits(bytes@, a as int, e as int) {
                        lemma_digits_val_grows(bytes@, a as int, k + 1, e as int);
                    }
                }
                return Err(<String as vstd::string::StringExecFns>::from_str(
                    "number in sequence description is too large",
                ));
            },
        };
        v = v2;
        k = k + 1;
    }
    Ok(v)
}

impl core::str::FromStr for Sequence {
    type Err = String;

    /// Read the written annotation form: the 1-based inclusive span of the
    /// sequence, then one bracketed 1-based span per gene. A malformed
    /// description is refused with a message.
    fn from_str(s: &str) -> Result<Sequence, String> {
        let bytes = s.as_bytes();
        let n = bytes.len();
        let mut nums: Vec<usize> = Vec::new();
        let mut i: usize = 0;
        while i < n
            invariant
                0 <= i <= n,
                n == bytes@.len(),
            decreases n - i,
        {
            let b = bytes[i];
            if is_sep(b) {
                i = i + 1;
            } else {
                let mut j = i;
                while j < n && !is_sep(bytes[j])
                    invariant
                        i <= j <= n,
                        n == bytes@.len(),
                    decreases n - j,
                {
                    j = j + 1;
                }
                let mut a = i;
                let mut e = j;
                while a < e && is_wrap(bytes[a])
                    invariant
                        i <= a <= e <= n,
                        n == bytes@.len(),
                    decreases e - a,
                {
                    a = a + 1;
                }
                while e > a && is_wrap(bytes[e - 1])
                    invariant
                        i <= a <= e <= n,
                        n == bytes@.len(),
                    decreases e - a,
                {
                    e = e - 1;
                }
                let v = match parse_number(bytes, a, e) {
                    Ok(v) => v,
                    Err(m) => {
                        return Err(m);
                    },
                };
                nums.push(v);
                i = j;
            }
        }
        Sequence::from_numbers(&nums)
    }
}

} // verus!
