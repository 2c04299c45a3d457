//! DNS domain names: an ordered label sequence, its uncompressed wire
//! encoding, and the decoder that follows compression pointers.

use vstd::prelude::*;

use crate::errors::SimpleDnsError;
use vstd::string::StringSliceAdditionalSpecFns;

verus! {

/// A label carries 1 to 63 octets.
pub open spec fn valid_label(l: Seq<u8>) -> bool {
    1 <= l.len() && l.len() <= 63
}

/// The wire bytes of a label sequence without the terminating zero:
/// each label is its length byte followed by its octets.
pub open spec fn encode_partial(labels: Seq<Seq<u8>>) -> Seq<u8>
    decreases labels.len(),
{
    if labels.len() == 0 {
        Seq::empty()
    } else {
        seq![labels[0].len() as u8] + labels[0] + encode_partial(labels.drop_first())
    }
}

/// The full uncompressed wire encoding of a label sequence: the labels
/// followed by the terminating zero byte.
pub open spec fn spec_encode(labels: Seq<Seq<u8>>) -> Seq<u8> {
    encode_partial(labels).push(0)
}

/// The uncompressed wire length of a label sequence.
pub open spec fn spec_encoded_len(labels: Seq<Seq<u8>>) -> int {
    encode_partial(labels).len() + 1int
}

/// A well-formed name: every label is valid and the whole encoding
/// fits in 255 octets.
pub open spec fn wf_labels(labels: Seq<Seq<u8>>) -> bool {
    &&& forall|i: int| 0 <= i < labels.len() ==> valid_label(#[trigger] labels[i])
    &&& spec_encoded_len(labels) <= 255
}

/// The outcome of decoding a name from wire bytes.
pub enum NameParse {
    /// The decoded label sequence and the bytes consumed at the
    /// starting position (up to and including the terminator or the
    /// first compression pointer).
    Parsed(Seq<Seq<u8>>, int),
    /// Too few bytes remained.
    Truncated,
    /// A length byte used the reserved `01`/`10` top-bit patterns.
    BadLabel,
    /// A compression pointer did not point strictly backward, or the
    /// pointer-chase budget ran out on a cyclic chain.
    BadPointer,
}

/// Decodes a label sequence from `data` starting at `pos`.
///
/// A zero byte ends the name; a byte up to 63 prefixes a label of that
/// many octets; a byte with top bits `11` combines with the next byte
/// into a 14-bit absolute offset at which decoding resumes.  Every
/// pointer must aim strictly backward, and at most `fuel` pointers are
/// followed.
pub open spec fn spec_parse_name(data: Seq<u8>, pos: int, fuel: nat) -> NameParse
    decreases fuel, data.len() - pos,
{
    if pos < 0 || pos >= data.len() {
        NameParse::Truncated
    } else {
        let b = data[pos] as int;
        if b == 0 {
            NameParse::Parsed(Seq::empty(), 1)
        } else if b < 64 {
            if pos + 1 + b > data.len() {
                NameParse::Truncated
            } else {
                match spec_parse_name(data, pos + 1 + b, fuel) {
                    NameParse::Parsed(rest, c) => NameParse::Parsed(
                        seq![data.subrange(pos + 1, pos + 1 + b)] + rest,
                        1 + b + c,
                    ),
                    other => other,
                }
            }
        } else if b < 192 {
            NameParse::BadLabel
        } else {
            if pos + 1 >= data.len() {
                NameParse::Truncated
            } else {
                let target = (b - 192) * 256 + data[pos + 1];
                if target >= pos || fuel == 0 {
                    NameParse::BadPointer
                } else {
                    match spec_parse_name(data, target, (fuel - 1) as nat) {
                        NameParse::Parsed(ls, _) => NameParse::Parsed(ls, 2),
                        other => other,
                    }
                }
            }
        }
    }
}

/// A successful decode consumes at least one byte, stays inside the
/// buffer, and yields only valid labels.
pub proof fn lemma_parse_shape(data: Seq<u8>, pos: int, fuel: nat)
    ensures
        spec_parse_name(data, pos, fuel) matches NameParse::Parsed(ls, c) ==> {
            &&& 1 <= c
            &&& pos + c <= data.len()
            &&& forall|i: int| 0 <= i < ls.len() ==> valid_label(#[trigger] ls[i])
        },
    decreases fuel, data.len() - pos,
{
    if 0 <= pos < data.len() {
        let b = data[pos] as int;
        if b == 0 {
        } else if b < 64 {
            if pos + 1 + b <= data.len() {
                lemma_parse_shape(data, pos + 1 + b, fuel);
            }
        } else if b < 192 {
        } else if pos + 1 < data.len() {
            let target = (b - 192) * 256 + data[pos + 1];
            if target < pos && fuel > 0 {
                lemma_parse_shape(data, target, (fuel - 1) as nat);
            }
        }
    }
}

/// Raising the pointer-chase budget never changes a successful decode.
pub proof fn lemma_parse_fuel_mono(data: Seq<u8>, pos: int, fuel1: nat, fuel2: nat)
    requires
        fuel1 <= fuel2,
        spec_parse_name(data, pos, fuel1) is Parsed,
    ensures
        spec_parse_name(data, pos, fuel2) == spec_parse_name(data, pos, fuel1),
    decreases fuel1, data.len() - pos,
{
    if 0 <= pos < data.len() {
        let b = data[pos] as int;
        if b == 0 {
        } else if b < 64 {
            if pos + 1 + b <= data.len() {
                lemma_parse_fuel_mono(data, pos + 1 + b, fuel1, fuel2);
            }
        } else if b < 192 {
        } else if pos + 1 < data.len() {
            let target = (b - 192) * 256 + data[pos + 1];
            if target < pos && fuel1 > 0 {
                lemma_parse_fuel_mono(data, target, (fuel1 - 1) as nat, (fuel2 - 1) as nat);
            }
        }
    }
}

/// Appending bytes to the buffer never changes a successful decode at
/// an earlier position.
pub proof fn lemma_parse_extend(data: Seq<u8>, ext: Seq<u8>, pos: int, fuel: nat)
    requires
        spec_parse_name(data, pos, fuel) is Parsed,
    ensures
        spec_parse_name(data + ext, pos, fuel) == spec_parse_name(data, pos, fuel),
    decreases fuel, data.len() - pos,
{
    let full = data + ext;
    if 0 <= pos < data.len() {
        let b = data[pos] as int;
        assert(full[pos] == data[pos]);
        if b == 0 {
        } else if b < 64 {
            if pos + 1 + b <= data.len() {
                lemma_parse_extend(data, ext, pos + 1 + b, fuel);
                assert(full.subrange(pos + 1, pos + 1 + b) =~= data.subrange(pos + 1, pos + 1 + b));
            }
        } else if b < 192 {
        } else if pos + 1 < data.len() {
            assert(full[pos + 1] == data[pos + 1]);
            let target = (b - 192) * 256 + data[pos + 1];
            if target < pos && fuel > 0 {
                lemma_parse_extend(data, ext, target, (fuel - 1) as nat);
            }
        }
    }
}

/// Decoding the uncompressed encoding of a valid label sequence gives
/// that label sequence back and consumes exactly its encoded length.
pub proof fn lemma_parse_encode(data: Seq<u8>, pos: int, labels: Seq<Seq<u8>>, fuel: nat)
    requires
        forall|i: int| 0 <= i < labels.len() ==> valid_label(#[trigger] labels[i]),
        0 <= pos,
        pos + spec_encoded_len(labels) <= data.len(),
        data.subrange(pos, pos + spec_encoded_len(labels)) == spec_encode(labels),
    ensures
        spec_parse_name(data, pos, fuel) == NameParse::Parsed(labels, spec_encoded_len(labels)),
    decreases labels.len(),
{
    let n = spec_encoded_len(labels);
    let enc = spec_encode(labels);
    assert(forall|j: int| 0 <= j < n ==> data[pos + j] == #[trigger] enc[j]) by {
        assert(forall|j: int|
            0 <= j < n ==> data[pos + j] == #[trigger] data.subrange(pos, pos + n)[j]);
    }
    assert(data[pos] == enc[0]);
    if labels.len() == 0 {
        assert(enc[0] == 0);
        assert(labels =~= Seq::<Seq<u8>>::empty());
    } else {
        let l0 = labels[0];
        let b = l0.len() as int;
        let rest = labels.drop_first();
        assert(valid_label(l0));
        assert(1 <= b <= 63);
        assert(enc =~= seq![l0.len() as u8] + l0 + spec_encode(rest));
        assert(enc[0] == l0.len() as u8);
        assert(data[pos] as int == b);
        assert(spec_encoded_len(rest) == n - 1 - b);
        assert forall|j: int| 0 <= j < n - 1 - b implies data.subrange(pos + 1 + b, pos + n)[j]
            == spec_encode(rest)[j] by {
            assert(data.subrange(pos + 1 + b, pos + n)[j] == data[pos + 1 + b + j]);
            assert(enc[1 + b + j] == (seq![l0.len() as u8] + l0 + spec_encode(rest))[1 + b + j]);
            assert(enc[1 + b + j] == spec_encode(rest)[j]);
        }
        assert(data.subrange(pos + 1 + b, pos + n) =~= spec_encode(rest));
        lemma_parse_encode(data, pos + 1 + b, rest, fuel);
        assert forall|j: int| 0 <= j < b implies data.subrange(pos + 1, pos + 1 + b)[j] == l0[j] by {
            assert(data.subrange(pos + 1, pos + 1 + b)[j] == data[pos + 1 + j]);
            assert(enc[1 + j] == (seq![l0.len() as u8] + l0 + spec_encode(rest))[1 + j]);
            assert(enc[1 + j] == l0[j]);
        }
        assert(data.subrange(pos + 1, pos + 1 + b) =~= l0);
        assert(seq![data.subrange(pos + 1, pos + 1 + b)] + rest =~= labels);
        assert(spec_encoded_len(rest) >= 1);
        assert(pos + 1 + b < data.len());
        assert(spec_parse_name(data, pos + 1 + b, fuel) == NameParse::Parsed(rest, n - 1 - b));
        assert(spec_parse_name(data, pos, fuel) == NameParse::Parsed(
            seq![data.subrange(pos + 1, pos + 1 + b)] + rest,
            1 + b + (n - 1 - b),
        ));
    }
}

/// Appending one label to a sequence appends its wire bytes.
pub proof fn lemma_encode_partial_push(labels: Seq<Seq<u8>>, l: Seq<u8>)
    ensures
        encode_partial(labels.push(l)) == encode_partial(labels) + seq![l.len() as u8] + l,
{
    let p = labels.push(l);
    assert(p =~= labels + seq![l]);
    lemma_encode_partial_add(labels, seq![l]);
    assert(seq![l].drop_first() =~= Seq::<Seq<u8>>::empty());
    assert(encode_partial(seq![l]) == seq![l.len() as u8] + l + encode_partial(
        Seq::<Seq<u8>>::empty(),
    ));
    assert(encode_partial(seq![l]) =~= seq![l.len() as u8] + l);
    assert(encode_partial(labels) + (seq![l.len() as u8] + l) =~= encode_partial(labels) + seq![
        l.len() as u8,
    ] + l);
}

/// The abstract value of a label vector: the sequence of its labels'
/// byte sequences.
pub open spec fn labels_view(labels: Vec<Vec<u8>>) -> Seq<Seq<u8>> {
    Seq::new(labels@.len(), |i: int| labels@[i]@)
}

/// A DNS domain name: an ordered sequence of labels.
///
/// The abstract value is the sequence of label byte strings; the
/// terminating root label is implicit.
pub struct Name {
    labels: Vec<Vec<u8>>,
}

impl View for Name {
    type V = Seq<Seq<u8>>;

    closed spec fn view(&self) -> Seq<Seq<u8>> {
        labels_view(self.labels)
    }
}

impl Name {
    /// A well-formed name: valid labels, encoding at most 255 octets.
    pub open spec fn wf(&self) -> bool {
        wf_labels(self@)
    }

    /// Builds a name from a dot-separated string, such as
    /// `"_srv._udp.local"`.  Fails if any segment is empty or longer
    /// than 63 octets, or if the whole encoding would exceed 255
    /// octets.
    pub fn new(name: &str) -> (r: Result<Name, SimpleDnsError>)
        ensures
            match r {
                Ok(n) => n@ == dot_split(name.spec_bytes()) && n.wf(),
                Err(e) => {
                    &&& !wf_labels(dot_split(name.spec_bytes()))
                    &&& (e == SimpleDnsError::InvalidLabel || e == SimpleDnsError::NameTooLong)
                    &&& (e == SimpleDnsError::InvalidLabel <==> !(forall|i: int|
                        0 <= i < dot_split(name.spec_bytes()).len() ==> valid_label(
                            #[trigger] dot_split(name.spec_bytes())[i],
                        )))
                },
            },
    {
        let bytes = name.as_bytes();
        let ghost all = bytes@;
        let mut segs: Vec<Vec<u8>> = Vec::new();
        let mut p: usize = 0;
        proof {
            assert(all.skip(0) =~= all);
            assert(labels_view(segs) =~= Seq::<Seq<u8>>::empty());
            assert(labels_view(segs) + dot_split(all) =~= dot_split(all));
        }
        loop
            invariant
                all == name.spec_bytes(),
                bytes@ == all,
                p <= all.len(),
                dot_split(all) == labels_view(segs) + dot_split(all.skip(p as int)),
            decreases all.len() - p,
        {
            let mut q = p;
            while q < bytes.len() && bytes[q] != 46
                invariant
                    bytes@ == all,
                    p <= q <= all.len(),
                    forall|k: int| p <= k < q ==> all[k] != 46,
                decreases all.len() - q,
            {
                q += 1;
            }
            let ghost seg = all.subrange(p as int, q as int);
            proof {
                if q == all.len() {
                    assert(all.skip(p as int) =~= seg);
                    lemma_dot_split_plain(seg);
                } else {
                    assert(all[q as int] == 46);
                    assert(all.skip(p as int) =~= seg + seq![46u8] + all.skip(q as int + 1));
                    lemma_dot_split_step(seg, all.skip(q as int + 1));
                }
                assert(dot_split(all.skip(p as int))[0] == seg);
                assert(dot_split(all)[labels_view(segs).len() as int] == seg);
            }
            if q - p == 0 || q - p > 63 {
                proof {
                    assert(!valid_label(seg));
                    assert(!(forall|i: int|
                        0 <= i < dot_split(all).len() ==> valid_label(
                            #[trigger] dot_split(all)[i],
                        )));
                }
                return Err(SimpleDnsError::InvalidLabel);
            }
            let seg_vec = vstd::slice::slice_to_vec(vstd::slice::slice_subrange(bytes, p, q));
            segs.push(seg_vec);
            if q == bytes.len() {
                proof {
                    assert(labels_view(segs) =~= dot_split(all));
                }
                return Name::from_labels(segs);
            }
            proof {
                assert(labels_view(segs) + dot_split(all.skip(q as int + 1)) =~= dot_split(all));
            }
            p = q + 1;
        }
    }

    /// Builds a name directly from its labels.
    pub fn from_labels(labels: Vec<Vec<u8>>) -> (r: Result<Name, SimpleDnsError>)
        ensures
            match r {
                Ok(n) => n@ == labels_view(labels) && n.wf(),
                Err(e) => {
                    &&& !wf_labels(labels_view(labels))
                    &&& (e == SimpleDnsError::InvalidLabel || e == SimpleDnsError::NameTooLong)
                    &&& (e == SimpleDnsError::InvalidLabel <==> !(forall|i: int|
                        0 <= i < labels_view(labels).len() ==> valid_label(
                            #[trigger] labels_view(labels)[i],
                        )))
                },
            },
    {
        let mut i: usize = 0;
        while i < labels.len()
            invariant
                i <= labels.len(),
                forall|j: int| 0 <= j < i ==> valid_label(#[trigger] labels_view(labels)[j]),
            decreases labels.len() - i,
        {
            let ll = labels[i].len();
            if ll == 0 || ll > 63 {
                assert(!valid_label(labels_view(labels)[i as int]));
                return Err(SimpleDnsError::InvalidLabel);
            }
            assert(valid_label(labels_view(labels)[i as int]));
            i += 1;
        }
        let n = Name { labels };
        match n.checked_len() {
            Some(_) => Ok(n),
            None => Err(SimpleDnsError::NameTooLong),
        }
    }

    /// Computes the uncompressed wire length, or `None` if it exceeds
    /// 255 octets.
    fn checked_len(&self) -> (r: Option<usize>)
        requires
            forall|i: int| 0 <= i < self@.len() ==> valid_label(#[trigger] self@[i]),
        ensures
            match r {
                Some(n) => n == spec_encoded_len(self@) && n <= 255,
                None => spec_encoded_len(self@) > 255,
            },
    {
        let mut acc: usize = 1;
        let mut i: usize = 0;
        while i < self.labels.len()
            invariant
                forall|k: int| 0 <= k < self@.len() ==> valid_label(#[trigger] self@[k]),
                i <= self@.len(),
                acc == spec_encoded_len(self@.take(i as int)),
                acc <= 255,
            decreases self@.len() - i,
        {
            proof {
                assert(self@.take(i as int + 1) =~= self@.take(i as int).push(self@[i as int]));
                lemma_encode_partial_push(self@.take(i as int), self@[i as int]);
            }
            let step = 1 + self.labels[i].len();
            assert(self.labels[i as int]@ == self@[i as int]);
            if acc + step > 255 {
                proof {
                    lemma_encode_partial_prefix(self@, i as int + 1);
                }
                return None;
            }
            acc = acc + step;
            i += 1;
        }
        proof {
            assert(self@.take(self@.len() as int) =~= self@);
        }
        Some(acc)
    }

    /// The uncompressed wire length of this name: its labels with
    /// their length prefixes, plus the terminating zero byte.
    /// Compression is an encoder-local optimization and does not
    /// change the logical length.
    pub fn len(&self) -> (r: usize)
        requires
            self.wf(),
        ensures
            r == spec_encoded_len(self@),
            r <= 255,
    {
        match self.checked_len() {
            Some(n) => n,
            None => {
                // unreachable: wf bounds the encoding by 255
                assert(false);
                0
            },
        }
    }

    /// The number of labels.
    pub fn label_count(&self) -> (r: usize)
        ensures
            r == self@.len(),
    {
        self.labels.len()
    }

    /// Returns a name that owns its data.  Names always own their
    /// label storage here, so this is the identity.
    pub fn into_owned(self) -> (r: Name)
        ensures
            r@ == self@,
    {
        self
    }

    /// Writes the uncompressed wire form: every label with its length
    /// prefix, then the terminating zero byte.
    pub fn write_to(&self, out: &mut Vec<u8>)
        requires
            self.wf(),
        ensures
            final(out)@ == old(out)@ + spec_encode(self@),
    {
        let ghost base = out@;
        let mut i: usize = 0;
        while i < self.labels.len()
            invariant
                self.wf(),
                i <= self@.len(),
                out@ == base + encode_partial(self@.take(i as int)),
            decreases self@.len() - i,
        {
            proof {
                assert(self@.take(i as int + 1) =~= self@.take(i as int).push(self@[i as int]));
                lemma_encode_partial_push(self@.take(i as int), self@[i as int]);
                assert(valid_label(self@[i as int]));
            }
            assert(self.labels[i as int]@ == self@[i as int]);
            let lab_len = self.labels[i].len();
            out.push(lab_len as u8);
            let mut j: usize = 0;
            while j < self.labels[i].len()
                invariant
                    i < self.labels@.len(),
                    j <= self.labels[i as int]@.len(),
                    self.labels[i as int]@ == self@[i as int],
                    out@ == base + encode_partial(self@.take(i as int)) + seq![
                        self@[i as int].len() as u8,
                    ] + self@[i as int].take(j as int),
                decreases self.labels[i as int]@.len() - j,
            {
                let byte = self.labels[i][j];
                out.push(byte);
                proof {
                    assert(self@[i as int].take(j as int + 1) =~= self@[i as int].take(
                        j as int,
                    ).push(self@[i as int][j as int]));
                }
                j += 1;
            }
            proof {
                assert(self@[i as int].take(self@[i as int].len() as int) =~= self@[i as int]);
                assert(out@ =~= base + encode_partial(self@.take(i as int + 1)));
            }
            i += 1;
        }
        out.push(0u8);
        proof {
            assert(self@.take(self@.len() as int) =~= self@);
            assert(out@ =~= base + spec_encode(self@));
        }
    }

    /// Decodes a name from `data` starting at `position`, following
    /// compression pointers.  On success returns the name and the
    /// number of bytes consumed at `position`.
    pub fn parse(data: &[u8], position: usize) -> (r: Result<(Name, usize), SimpleDnsError>)
        ensures
            match r {
                Ok((n, c)) => {
                    &&& spec_parse_name(data@, position as int, data@.len() as nat)
                        == NameParse::Parsed(n@, c as int)
                    &&& n.wf()
                    &&& 1 <= c
                    &&& position + c <= data@.len()
                },
                Err(e) => match spec_parse_name(data@, position as int, data@.len() as nat) {
                    NameParse::Parsed(ls, _) => spec_encoded_len(ls) > 255 && e
                        == SimpleDnsError::NameTooLong,
                    NameParse::Truncated => e == SimpleDnsError::InsufficientData,
                    NameParse::BadLabel => e == SimpleDnsError::UnrecognizedValue,
                    NameParse::BadPointer => e == SimpleDnsError::MalformedPointer,
                },
            },
    {
        let fuel = data.len();
        let (labels, consumed) = match parse_labels(data, position, fuel) {
            Ok(p) => p,
            Err(e) => {
                return Err(e);
            },
        };
        proof {
            lemma_parse_shape(data@, position as int, fuel as nat);
            let ls = spec_parse_name(data@, position as int, fuel as nat)->Parsed_0;
            assert(ls == labels_view(labels));
            assert(forall|i: int|
                0 <= i < labels_view(labels).len() ==> valid_label(
                    #[trigger] labels_view(labels)[i],
                ));
        }
        let n = Name { labels };
        match n.checked_len() {
            Some(_) => Ok((n, consumed)),
            None => Err(SimpleDnsError::NameTooLong),
        }
    }

    /// Tests two names for structural equality of their labels.
    pub fn eq_labels(&self, other: &Name) -> (r: bool)
        ensures
            r == (self@ == other@),
    {
        if self.labels.len() != other.labels.len() {
            assert(self@.len() != other@.len());
            return false;
        }
        let mut i: usize = 0;
        while i < self.labels.len()
            invariant
                self.labels@.len() == other.labels@.len(),
                i <= self@.len(),
                forall|k: int| 0 <= k < i ==> self@[k] == other@[k],
            decreases self@.len() - i,
        {
            if !bytes_eq(&self.labels[i], &other.labels[i]) {
                assert(self@[i as int] != other@[i as int]);
                return false;
            }
            i += 1;
        }
        proof {
            assert(self@ =~= other@);
        }
        true
    }

    /// Tests two names for equality ignoring ASCII case, the DNS
    /// convention for name matching.
    pub fn matches(&self, other: &Name) -> (r: bool)
        ensures
            r == spec_name_matches(self@, other@),
    {
        if self.labels.len() != other.labels.len() {
            assert(lower_labels(self@).len() != lower_labels(other@).len());
            return false;
        }
        let mut i: usize = 0;
        while i < self.labels.len()
            invariant
                self.labels@.len() == other.labels@.len(),
                i <= self@.len(),
                forall|k: int| 0 <= k < i ==> lower_labels(self@)[k] == lower_labels(other@)[k],
            decreases self@.len() - i,
        {
            if !bytes_eq_ignore_case(&self.labels[i], &other.labels[i]) {
                assert(lower_labels(self@)[i as int] != lower_labels(other@)[i as int]);
                return false;
            }
            assert(lower_labels(self@)[i as int] == lower_labels(other@)[i as int]);
            i += 1;
        }
        proof {
            assert(lower_labels(self@) =~= lower_labels(other@));
        }
        true
    }

    /// Tests whether this name equals the suffix of `other` that
    /// starts at label `from`.
    fn suffix_eq(&self, other: &Name, from: usize) -> (r: bool)
        requires
            from <= other@.len(),
        ensures
            r == (self@ == other@.skip(from as int)),
    {
        let ghost sfx = other@.skip(from as int);
        let olen = other.labels.len();
        if self.labels.len() != olen - from {
            assert(self@.len() != sfx.len());
            return false;
        }
        let mut k: usize = 0;
        while k < self.labels.len()
            invariant
                sfx == other@.skip(from as int),
                from <= other@.len(),
                self@.len() == sfx.len(),
                self.labels@.len() == self@.len(),
                other.labels@.len() == other@.len(),
                olen == other@.len(),
                k <= self@.len(),
                forall|j: int| 0 <= j < k ==> self@[j] == sfx[j],
            decreases self@.len() - k,
        {
            assert(from + k < olen);
            if !bytes_eq(&self.labels[k], &other.labels[from + k]) {
                assert(self@[k as int] != sfx[k as int]);
                return false;
            }
            assert(self@[k as int] == sfx[k as int]);
            k += 1;
        }
        proof {
            assert(self@ =~= sfx);
        }
        true
    }

    /// Copies the suffix of this name that starts at label `from`.
    fn suffix_name(&self, from: usize) -> (r: Name)
        requires
            from <= self@.len(),
        ensures
            r@ == self@.skip(from as int),
    {
        let mut labels: Vec<Vec<u8>> = Vec::new();
        let mut k: usize = from;
        while k < self.labels.len()
            invariant
                from <= k <= self@.len(),
                self.labels@.len() == self@.len(),
                labels@.len() == k - from,
                forall|j: int| 0 <= j < k - from ==> #[trigger] labels@[j]@ == self@[from + j],
            decreases self@.len() - k,
        {
            let mut lab: Vec<u8> = Vec::new();
            let mut j: usize = 0;
            while j < self.labels[k].len()
                invariant
                    k < self.labels@.len(),
                    j <= self.labels[k as int]@.len(),
                    lab@ == self.labels[k as int]@.take(j as int),
                decreases self.labels[k as int]@.len() - j,
            {
                let b = self.labels[k][j];
                lab.push(b);
                proof {
                    assert(self.labels[k as int]@.take(j as int + 1) =~= self.labels[k as int]@.take(
                        j as int,
                    ).push(self.labels[k as int]@[j as int]));
                }
                j += 1;
            }
            proof {
                assert(self.labels[k as int]@.take(self.labels[k as int]@.len() as int)
                    =~= self.labels[k as int]@);
            }
            labels.push(lab);
            k += 1;
        }
        let r = Name { labels };
        proof {
            assert(r@ =~= self@.skip(from as int));
        }
        r
    }

    /// The number of bytes a compressed write against the given table
    /// would emit.
    pub fn compressed_len(&self, name_refs: &NameRefs) -> (r: usize)
        requires
            self.wf(),
        ensures
            r == spec_compressed_len(self@, name_refs@),
            r <= spec_encoded_len(self@),
    {
        let count = self.labels.len();
        let mut stop: usize = 0;
        let mut found = false;
        while stop < count && !found
            invariant
                self.wf(),
                self.labels@.len() == self@.len(),
                count == self@.len(),
                stop <= count,
                !found ==> spec_find_compression(self@, name_refs@, 0) == spec_find_compression(
                    self@,
                    name_refs@,
                    stop as int,
                ),
                found ==> stop < count && spec_find_compression(self@, name_refs@, 0).0
                    == stop as int && spec_find_compression(self@, name_refs@, 0).1 is Some,
            decreases count - stop, (if found { 0int } else { 1int }),
        {
            match name_refs.find(self, stop) {
                Some(_) => {
                    found = true;
                },
                None => {
                    stop += 1;
                },
            }
        }
        proof {
            if !found {
                assert(spec_find_compression(self@, name_refs@, stop as int) == (
                    self@.len() as int,
                    Option::<int>::None,
                ));
            }
        }
        let mut acc: usize = 0;
        let mut i: usize = 0;
        while i < stop
            invariant
                self.wf(),
                self.labels@.len() == self@.len(),
                stop <= self@.len(),
                i <= stop,
                acc == encode_partial(self@.take(i as int)).len(),
                acc <= 254,
            decreases stop - i,
        {
            proof {
                assert(self@.take(i as int + 1) =~= self@.take(i as int).push(self@[i as int]));
                lemma_encode_partial_push(self@.take(i as int), self@[i as int]);
                assert(valid_label(self@[i as int]));
                lemma_encode_partial_prefix(self@, i as int + 1);
            }
            assert(self.labels[i as int]@ == self@[i as int]);
            acc = acc + 1 + self.labels[i].len();
            i += 1;
        }
        proof {
            if found {
                assert(self@.take(stop as int) + self@.skip(stop as int) =~= self@);
                lemma_encode_partial_add(self@.take(stop as int), self@.skip(stop as int));
                let sfx = self@.skip(stop as int);
                assert(sfx.len() > 0);
                assert(valid_label(sfx[0]));
                assert(encode_partial(sfx).len() >= 2);
            } else {
                assert(self@.take(stop as int) =~= self@);
            }
        }
        if found {
            acc + 2
        } else {
            acc + 1
        }
    }

    /// Writes the wire form using name compression.  If a suffix of
    /// this name was already written into the message, only the
    /// preceding labels are written, followed by a two-byte pointer to
    /// that suffix; otherwise the whole name is written.  Either way
    /// the bytes decode back to this name, never exceed the
    /// uncompressed length, and the table is extended with the
    /// offsets of the newly written suffixes for later names to reuse.
    pub fn write_compressed_to(&self, out: &mut Vec<u8>, name_refs: &mut NameRefs)
        requires
            self.wf(),
            refs_wf(old(name_refs)@, old(out)@),
        ensures
            refs_wf(final(name_refs)@, final(out)@),
            final(out)@.len() == old(out)@.len() + spec_compressed_len(self@, old(name_refs)@),
            spec_compressed_len(self@, old(name_refs)@) <= spec_encoded_len(self@),
            final(out)@.subrange(0, old(out)@.len() as int) == old(out)@,
            spec_parse_name(final(out)@, old(out)@.len() as int, final(out)@.len() as nat)
                == NameParse::Parsed(self@, spec_compressed_len(self@, old(name_refs)@)),
    {
        let ghost oldout = out@;
        let ghost oldrefs = name_refs@;
        let start = out.len();
        let count = self.labels.len();
        // plan: find the first suffix already in the table
        let mut stop: usize = 0;
        let mut found = false;
        let mut poff: usize = 0;
        while stop < count && !found
            invariant
                oldrefs == name_refs@,
                self.labels@.len() == self@.len(),
                count == self@.len(),
                stop <= count,
                !found ==> spec_find_compression(self@, oldrefs, 0) == spec_find_compression(
                    self@,
                    oldrefs,
                    stop as int,
                ),
                found ==> stop < count && spec_find_compression(self@, oldrefs, 0) == (
                    stop as int,
                    Some(poff as int),
                ),
            decreases count - stop, (if found { 0int } else { 1int }),
        {
            match name_refs.find(self, stop) {
                Some(off) => {
                    poff = off;
                    found = true;
                },
                None => {
                    stop += 1;
                },
            }
        }
        proof {
            if !found {
                assert(spec_find_compression(self@, oldrefs, stop as int) == (
                    self@.len() as int,
                    Option::<int>::None,
                ));
            }
        }
        let ghost plan_len = spec_compressed_len(self@, oldrefs);
        // write the unmatched label prefix
        let mut i: usize = 0;
        while i < stop
            invariant
                self.wf(),
                self.labels@.len() == self@.len(),
                stop <= self@.len(),
                i <= stop,
                out@ == oldout + encode_partial(self@.take(i as int)),
            decreases stop - i,
        {
            proof {
                assert(self@.take(i as int + 1) =~= self@.take(i as int).push(self@[i as int]));
                lemma_encode_partial_push(self@.take(i as int), self@[i as int]);
                assert(valid_label(self@[i as int]));
            }
            assert(self.labels[i as int]@ == self@[i as int]);
            let lab_len = self.labels[i].len();
            out.push(lab_len as u8);
            let mut j: usize = 0;
            while j < self.labels[i].len()
                invariant
                    i < self.labels@.len(),
                    j <= self.labels[i as int]@.len(),
                    self.labels[i as int]@ == self@[i as int],
                    out@ == oldout + encode_partial(self@.take(i as int)) + seq![
                        self@[i as int].len() as u8,
                    ] + self@[i as int].take(j as int),
                decreases self.labels[i as int]@.len() - j,
            {
                let byte = self.labels[i][j];
                out.push(byte);
                proof {
                    assert(self@[i as int].take(j as int + 1) =~= self@[i as int].take(
                        j as int,
                    ).push(self@[i as int][j as int]));
                }
                j += 1;
            }
            proof {
                assert(self@[i as int].take(self@[i as int].len() as int) =~= self@[i as int]);
                assert(out@ =~= oldout + encode_partial(self@.take(i as int + 1)));
            }
            i += 1;
        }
        let ghost prefix = encode_partial(self@.take(stop as int));
        let ghost pstop = start + prefix.len();
        assert(out@ == oldout + prefix);
        assert(out@.len() == pstop);
        // write the ending: a pointer to the matched suffix, or the
        // terminating zero byte
        if found {
            proof {
                lemma_find_compression_shape(self@, oldrefs, 0);
                lemma_find_entry_member(oldrefs, self@.skip(stop as int));
                let k = choose|k: int|
                    0 <= k < oldrefs.len() && oldrefs[k] == (
                        self@.skip(stop as int),
                        poff as int,
                    );
                assert(entry_ok(oldrefs[k].0, oldrefs[k].1, oldout));
                assert(poff <= 0x3FFF);
            }
            let hi = (192 + poff / 256) as u8;
            let lo = (poff % 256) as u8;
            out.push(hi);
            out.push(lo);
        } else {
            out.push(0u8);
        }
        let ghost f1 = out@;
        proof {
            // the freshly written bytes decode back to this name
            assert(f1.subrange(0, oldout.len() as int) =~= oldout);
            assert(f1 =~= oldout + f1.subrange(oldout.len() as int, f1.len() as int));
            let ext = f1.subrange(oldout.len() as int, f1.len() as int);
            assert(f1.subrange(start as int, pstop as int) =~= prefix);
            let fuel = f1.len() as nat;
            if found {
                let k = choose|k: int|
                    0 <= k < oldrefs.len() && oldrefs[k] == (
                        self@.skip(stop as int),
                        poff as int,
                    );
                assert(entry_ok(oldrefs[k].0, oldrefs[k].1, oldout));
                assert(spec_parse_name(oldout, poff as int, poff as nat) is Parsed);
                assert(poff < oldout.len());
                lemma_parse_extend(oldout, ext, poff as int, poff as nat);
                assert(spec_parse_name(f1, poff as int, poff as nat)->Parsed_0 == self@.skip(
                    stop as int,
                ));
                // the pointer cell decodes as a jump to that suffix
                assert(f1[pstop as int] as int == 192 + poff / 256);
                assert(f1[pstop as int + 1] as int == poff % 256);
                lemma_pointer_cell(
                    f1,
                    pstop as int,
                    poff as int,
                    fuel,
                    self@.skip(stop as int),
                );
                assert(spec_parse_name(f1, pstop as int, fuel) == NameParse::Parsed(
                    self@.skip(stop as int),
                    2,
                ));
            } else {
                assert(f1[pstop as int] == 0);
                assert(spec_parse_name(f1, pstop as int, fuel) == NameParse::Parsed(
                    Seq::<Seq<u8>>::empty(),
                    1,
                ));
            }
            assert(forall|q: int|
                0 <= q < self@.take(stop as int).len() ==> valid_label(
                    #[trigger] self@.take(stop as int)[q],
                ));
            lemma_parse_labels_prefix(f1, start as int, self@.take(stop as int), fuel);
            if found {
                assert(self@.take(stop as int) + self@.skip(stop as int) =~= self@);
            } else {
                assert(self@.take(stop as int) =~= self@);
                assert(self@.take(stop as int) + Seq::<Seq<u8>>::empty() =~= self@);
            }
            assert(spec_parse_name(f1, start as int, fuel) == NameParse::Parsed(
                self@,
                f1.len() - start,
            ));
            // the compressed form never exceeds the uncompressed one
            if found {
                assert(self@.take(stop as int) + self@.skip(stop as int) =~= self@);
                lemma_encode_partial_add(self@.take(stop as int), self@.skip(stop as int));
                let sfx = self@.skip(stop as int);
                assert(sfx.len() > 0);
                assert(valid_label(sfx[0]));
                assert(encode_partial(sfx).len() >= 2);
            }
            assert(f1.len() - start == plan_len);
            // entries recorded earlier still decode in the longer buffer
            assert forall|e: int| 0 <= e < oldrefs.len() implies entry_ok(
                oldrefs[e].0,
                oldrefs[e].1,
                f1,
            ) by {
                assert(entry_ok(oldrefs[e].0, oldrefs[e].1, oldout));
                lemma_parse_extend(oldout, ext, oldrefs[e].1, oldrefs[e].1 as nat);
            }
        }
        proof {
            // the ending also decodes with the smaller budget `start`
            if found {
                let k = choose|k: int|
                    0 <= k < oldrefs.len() && oldrefs[k] == (
                        self@.skip(stop as int),
                        poff as int,
                    );
                assert(entry_ok(oldrefs[k].0, oldrefs[k].1, oldout));
                assert(poff < oldout.len());
                let ext = f1.subrange(oldout.len() as int, f1.len() as int);
                lemma_parse_extend(oldout, ext, poff as int, poff as nat);
                lemma_pointer_cell(
                    f1,
                    pstop as int,
                    poff as int,
                    start as nat,
                    self@.skip(stop as int),
                );
            }
        }
        // record the offsets of the suffixes just written, for later
        // names in the same message to point at
        let flen = out.len();
        let mut j: usize = 0;
        let mut pos: usize = start;
        while j < stop
            invariant
                self.wf(),
                self.labels@.len() == self@.len(),
                stop <= self@.len(),
                !found ==> stop == self@.len(),
                j <= stop,
                out@ == f1,
                flen == f1.len(),
                pos == start + encode_partial(self@.take(j as int)).len(),
                pos <= pstop,
                start == oldout.len(),
                pstop == start + encode_partial(self@.take(stop as int)).len(),
                pstop + 1 <= f1.len(),
                f1.subrange(start as int, pstop as int) == encode_partial(
                    self@.take(stop as int),
                ),
                spec_parse_name(f1, pstop as int, pos as nat) == (if found {
                    NameParse::Parsed(self@.skip(stop as int), 2int)
                } else {
                    NameParse::Parsed(Seq::<Seq<u8>>::empty(), 1int)
                }),
                refs_wf(name_refs@, f1),
            decreases stop - j,
        {
            proof {
                assert(self@.take(j as int + 1) =~= self@.take(j as int).push(self@[j as int]));
                lemma_encode_partial_push(self@.take(j as int), self@[j as int]);
                assert(valid_label(self@[j as int]));
                assert(self@.take(stop as int).take(j as int + 1) =~= self@.take(j as int + 1));
                lemma_encode_partial_prefix(self@.take(stop as int), j as int + 1);
            }
            if pos <= 0x3FFF {
                let suffix = self.suffix_name(j);
                proof {
                    // the suffix decodes at its recorded offset
                    assert(self@.take(j as int) + self@.subrange(j as int, stop as int)
                        =~= self@.take(stop as int));
                    lemma_encode_partial_add(
                        self@.take(j as int),
                        self@.subrange(j as int, stop as int),
                    );
                    let mid = self@.subrange(j as int, stop as int);
                    crate::wire::lemma_subrange_transfer(
                        f1,
                        start as int,
                        encode_partial(self@.take(stop as int)),
                        (pos - start) as int,
                        (pstop - start) as int,
                    );
                    assert(encode_partial(self@.take(stop as int)).subrange(
                        (pos - start) as int,
                        (pstop - start) as int,
                    ) =~= encode_partial(mid));
                    assert(f1.subrange(pos as int, pstop as int) == encode_partial(mid));
                    assert(forall|q: int|
                        0 <= q < mid.len() ==> valid_label(#[trigger] mid[q]));
                    lemma_parse_labels_prefix(f1, pos as int, mid, pos as nat);
                    assert(mid + self@.skip(stop as int) =~= self@.skip(j as int));
                    assert(mid + Seq::<Seq<u8>>::empty() =~= mid);
                    if !found {
                        assert(mid =~= self@.skip(j as int));
                    }
                    assert(spec_parse_name(f1, pos as int, pos as nat)->Parsed_0 == self@.skip(
                        j as int,
                    ));
                }
                name_refs.record(suffix, pos);
                proof {
                    assert(entry_ok(self@.skip(j as int), pos as int, f1));
                    assert(forall|e: int|
                        0 <= e < name_refs@.len() ==> entry_ok(
                            #[trigger] name_refs@[e].0,
                            name_refs@[e].1,
                            f1,
                        ));
                }
            }
            let step = self.labels[j].len();
            assert(self.labels[j as int]@ == self@[j as int]);
            assert(pos + 1 + step <= pstop);
            proof {
                lemma_parse_fuel_mono(
                    f1,
                    pstop as int,
                    pos as nat,
                    (pos + 1 + step) as nat,
                );
            }
            pos = pos + 1 + step;
            j += 1;
        }
        proof {
            assert(out@ == f1);
        }
    }

    /// Copies this name.
    pub fn duplicate(&self) -> (r: Name)
        ensures
            r@ == self@,
    {
        let mut labels: Vec<Vec<u8>> = Vec::new();
        let mut i: usize = 0;
        while i < self.labels.len()
            invariant
                i <= self@.len(),
                labels@.len() == i,
                forall|k: int| 0 <= k < i ==> #[trigger] labels@[k]@ == self@[k],
            decreases self@.len() - i,
        {
            let mut lab: Vec<u8> = Vec::new();
            let mut j: usize = 0;
            while j < self.labels[i].len()
                invariant
                    i < self.labels@.len(),
                    j <= self.labels[i as int]@.len(),
                    lab@ == self.labels[i as int]@.take(j as int),
                decreases self.labels[i as int]@.len() - j,
            {
                let b = self.labels[i][j];
                lab.push(b);
                proof {
                    assert(self.labels[i as int]@.take(j as int + 1) =~= self.labels[i as int]@.take(
                        j as int,
                    ).push(self.labels[i as int]@[j as int]));
                }
                j += 1;
            }
            proof {
                assert(self.labels[i as int]@.take(self.labels[i as int]@.len() as int)
                    =~= self.labels[i as int]@);
                assert(lab@ == self@[i as int]);
            }
            labels.push(lab);
            i += 1;
        }
        let r = Name { labels };
        proof {
            assert(r@ =~= self@);
        }
        r
    }
}

/// Splits a byte string into its dot-separated segments.  Consecutive
/// dots, a leading dot and a trailing dot yield empty segments; the
/// empty string yields one empty segment.
pub open spec fn dot_split(bytes: Seq<u8>) -> Seq<Seq<u8>>
    decreases bytes.len(),
{
    if bytes.len() == 0 {
        seq![Seq::<u8>::empty()]
    } else if bytes[0] == 46 {
        seq![Seq::<u8>::empty()] + dot_split(bytes.drop_first())
    } else {
        let rest = dot_split(bytes.drop_first());
        seq![seq![bytes[0]] + rest[0]] + rest.drop_first()
    }
}

/// Splitting a dot-free byte string yields that string alone.
pub proof fn lemma_dot_split_plain(seg: Seq<u8>)
    requires
        forall|i: int| 0 <= i < seg.len() ==> seg[i] != 46,
    ensures
        dot_split(seg) == seq![seg],
    decreases seg.len(),
{
    if seg.len() > 0 {
        assert(seg[0] != 46);
        assert(forall|i: int|
            0 <= i < seg.drop_first().len() ==> #[trigger] seg.drop_first()[i] != 46) by {
            assert(forall|i: int|
                0 <= i < seg.drop_first().len() ==> #[trigger] seg.drop_first()[i] == seg[i + 1]);
        }
        lemma_dot_split_plain(seg.drop_first());
        let rest = dot_split(seg.drop_first());
        assert(rest == seq![seg.drop_first()]);
        assert(rest[0] == seg.drop_first());
        assert(dot_split(seg) == seq![seq![seg[0]] + rest[0]] + rest.drop_first());
        assert(seq![seg[0]] + seg.drop_first() =~= seg);
        assert(seq![seq![seg[0]] + rest[0]] + rest.drop_first() =~= seq![seg]);
    } else {
        assert(seg =~= Seq::<u8>::empty());
        assert(seq![Seq::<u8>::empty()] =~= seq![seg]);
    }
}

/// Splitting at the first dot separates the dot-free head segment.
pub proof fn lemma_dot_split_step(seg: Seq<u8>, rest: Seq<u8>)
    requires
        forall|i: int| 0 <= i < seg.len() ==> seg[i] != 46,
    ensures
        dot_split(seg + seq![46u8] + rest) == seq![seg] + dot_split(rest),
    decreases seg.len(),
{
    let whole = seg + seq![46u8] + rest;
    if seg.len() == 0 {
        assert(whole[0] == 46);
        assert(whole.drop_first() =~= rest);
        assert(seg =~= Seq::<u8>::empty());
        assert(seq![Seq::<u8>::empty()] + dot_split(rest) =~= seq![seg] + dot_split(rest));
    } else {
        assert(whole[0] == seg[0]);
        assert(whole[0] != 46);
        assert(whole.drop_first() =~= seg.drop_first() + seq![46u8] + rest);
        lemma_dot_split_step(seg.drop_first(), rest);
        let inner = dot_split(whole.drop_first());
        assert(inner == seq![seg.drop_first()] + dot_split(rest));
        assert(inner[0] == seg.drop_first());
        assert(inner.drop_first() =~= dot_split(rest));
        assert(seq![whole[0]] + inner[0] =~= seg);
        assert(seq![seq![whole[0]] + inner[0]] + inner.drop_first() =~= seq![seg] + dot_split(
            rest,
        ));
    }
}

/// Concatenating label sequences concatenates their wire bytes.
pub proof fn lemma_encode_partial_add(a: Seq<Seq<u8>>, b: Seq<Seq<u8>>)
    ensures
        encode_partial(a + b) == encode_partial(a) + encode_partial(b),
    decreases a.len(),
{
    if a.len() == 0 {
        assert(a + b =~= b);
        assert(encode_partial(a) =~= Seq::<u8>::empty());
        assert(encode_partial(a) + encode_partial(b) =~= encode_partial(b));
    } else {
        assert((a + b).drop_first() =~= a.drop_first() + b);
        assert((a + b)[0] == a[0]);
        lemma_encode_partial_add(a.drop_first(), b);
        assert(encode_partial(a + b) == seq![a[0].len() as u8] + a[0] + (encode_partial(
            a.drop_first(),
        ) + encode_partial(b)));
        assert(seq![a[0].len() as u8] + a[0] + (encode_partial(a.drop_first()) + encode_partial(b))
            =~= (seq![a[0].len() as u8] + a[0] + encode_partial(a.drop_first())) + encode_partial(
            b,
        ));
    }
}

/// Decoding at the start of a run of labels yields those labels
/// followed by whatever decodes after them, at unchanged pointer
/// budget.
#[verifier::rlimit(50)]
pub proof fn lemma_parse_labels_prefix(data: Seq<u8>, start: int, ls: Seq<Seq<u8>>, fuel: nat)
    requires
        forall|i: int| 0 <= i < ls.len() ==> valid_label(#[trigger] ls[i]),
        0 <= start,
        start + encode_partial(ls).len() <= data.len(),
        data.subrange(start, start + encode_partial(ls).len() as int) == encode_partial(ls),
        spec_parse_name(data, start + encode_partial(ls).len() as int, fuel) is Parsed,
    ensures
        spec_parse_name(data, start, fuel) matches NameParse::Parsed(all, c) && all == ls
            + spec_parse_name(data, start + encode_partial(ls).len() as int, fuel)->Parsed_0 && c
            == encode_partial(ls).len() + spec_parse_name(
            data,
            start + encode_partial(ls).len() as int,
            fuel,
        )->Parsed_1,
    decreases ls.len(),
{
    let w = encode_partial(ls);
    let rest = spec_parse_name(data, start + w.len() as int, fuel);
    if ls.len() == 0 {
        assert(Seq::<Seq<u8>>::empty() + rest->Parsed_0 =~= rest->Parsed_0);
    } else {
        let l0 = ls[0];
        let b = l0.len() as int;
        let tail = ls.drop_first();
        let wt = encode_partial(tail);
        assert(w == seq![l0.len() as u8] + l0 + wt);
        assert(w.len() == 1 + b + wt.len());
        assert(data[start] == data.subrange(start, start + w.len() as int)[0]);
        assert(data[start] == w[0]);
        assert(w[0] == l0.len() as u8);
        assert(1 <= b <= 63);
        assert forall|j: int| 0 <= j < wt.len() implies data.subrange(
            start + 1 + b,
            start + 1 + b + wt.len() as int,
        )[j] == wt[j] by {
            assert(data.subrange(start, start + w.len() as int)[1 + b + j] == w[1 + b + j]);
            assert(data[start + 1 + b + j] == data.subrange(start, start + w.len() as int)[1 + b
                + j]);
            assert(w[1 + b + j] == wt[j]);
            assert(data.subrange(start + 1 + b, start + 1 + b + wt.len() as int)[j] == data[start
                + 1 + b + j]);
        }
        assert(data.subrange(start + 1 + b, start + 1 + b + wt.len() as int) =~= wt);
        lemma_parse_labels_prefix(data, start + 1 + b, tail, fuel);
        assert forall|j: int| 0 <= j < b implies data.subrange(start + 1, start + 1 + b)[j]
            == l0[j] by {
            assert(data.subrange(start, start + w.len() as int)[1 + j] == w[1 + j]);
            assert(data[start + 1 + j] == data.subrange(start, start + w.len() as int)[1 + j]);
            assert(w[1 + j] == l0[j]);
            assert(data.subrange(start + 1, start + 1 + b)[j] == data[start + 1 + j]);
        }
        assert(data.subrange(start + 1, start + 1 + b) =~= l0);
        let inner = spec_parse_name(data, start + 1 + b, fuel);
        assert(inner matches NameParse::Parsed(all2, c2) && all2 == tail + rest->Parsed_0 && c2
            == wt.len() + rest->Parsed_1);
        assert(seq![data.subrange(start + 1, start + 1 + b)] + (tail + rest->Parsed_0) =~= ls
            + rest->Parsed_0);
    }
}

/// A two-byte pointer cell decodes as a jump to its target, with any
/// budget beyond the target's own.
pub proof fn lemma_pointer_cell(f1: Seq<u8>, pstop: int, poff: int, fuel: nat, ls: Seq<Seq<u8>>)
    requires
        0 <= poff <= 0x3FFF,
        0 <= pstop,
        pstop + 1 < f1.len(),
        f1[pstop] as int == 192 + poff / 256,
        f1[pstop + 1] as int == poff % 256,
        poff < pstop,
        fuel >= poff + 1,
        spec_parse_name(f1, poff, poff as nat) is Parsed,
        spec_parse_name(f1, poff, poff as nat)->Parsed_0 == ls,
    ensures
        spec_parse_name(f1, pstop, fuel) == NameParse::Parsed(ls, 2),
{
    assert(poff / 256 <= 63) by (nonlinear_arith)
        requires
            0 <= poff <= 0x3FFF,
    ;
    vstd::arithmetic::div_mod::lemma_fundamental_div_mod(poff, 256);
    let b = f1[pstop] as int;
    assert(192 <= b < 256);
    assert((b - 192) * 256 + f1[pstop + 1] == poff);
    lemma_parse_fuel_mono(f1, poff, poff as nat, (fuel - 1) as nat);
}

/// An entry of the compression table: a name whose wire form begins
/// at the given message offset, decodable with a pointer budget no
/// larger than the offset itself.
pub open spec fn entry_ok(labels: Seq<Seq<u8>>, off: int, out: Seq<u8>) -> bool {
    &&& 0 <= off <= 0x3FFF
    &&& spec_parse_name(out, off, off as nat) is Parsed
    &&& spec_parse_name(out, off, off as nat)->Parsed_0 == labels
}

/// One record of the compression table.
pub struct RefEntry {
    /// The name (or name suffix) already written.
    pub name: Name,
    /// The message offset where its wire form begins.
    pub offset: usize,
}

/// The name-compression table threaded through one serialization
/// pass: each entry maps an already-written name suffix to the
/// message offset where it starts.
pub struct NameRefs {
    entries: Vec<RefEntry>,
}

impl View for NameRefs {
    type V = Seq<(Seq<Seq<u8>>, int)>;

    closed spec fn view(&self) -> Seq<(Seq<Seq<u8>>, int)> {
        Seq::new(self.entries@.len(), |i: int| (self.entries@[i].name@, self.entries@[i].offset as int))
    }
}

/// A valid compression table for the message written so far: every
/// entry decodes, at its offset, to its name.
pub open spec fn refs_wf(v: Seq<(Seq<Seq<u8>>, int)>, out: Seq<u8>) -> bool {
    forall|i: int| 0 <= i < v.len() ==> entry_ok(v[i].0, v[i].1, out)
}

impl NameRefs {
    /// Creates an empty compression table.
    pub fn new() -> (r: NameRefs)
        ensures
            r@ == Seq::<(Seq<Seq<u8>>, int)>::empty(),
    {
        let r = NameRefs { entries: Vec::new() };
        proof {
            assert(r@ =~= Seq::<(Seq<Seq<u8>>, int)>::empty());
        }
        r
    }

    /// Looks up the offset recorded for the suffix of `name` that
    /// starts at label `from`.
    fn find(&self, name: &Name, from: usize) -> (r: Option<usize>)
        requires
            from <= name@.len(),
        ensures
            match r {
                Some(off) => spec_find_entry(self@, name@.skip(from as int)) == Some(off as int),
                None => spec_find_entry(self@, name@.skip(from as int)) is None,
            },
    {
        let ghost sfx = name@.skip(from as int);
        let mut k: usize = 0;
        proof {
            assert(self@.skip(0) =~= self@);
        }
        while k < self.entries.len()
            invariant
                sfx == name@.skip(from as int),
                from <= name@.len(),
                k <= self@.len(),
                self@.len() == self.entries@.len(),
                spec_find_entry(self@, sfx) == spec_find_entry(self@.skip(k as int), sfx),
            decreases self@.len() - k,
        {
            proof {
                assert(self@.skip(k as int)[0] == self@[k as int]);
                assert(self@.skip(k as int).drop_first() =~= self@.skip(k as int + 1));
            }
            if self.entries[k].name.suffix_eq(name, from) {
                assert(self@[k as int].0 == sfx);
                return Some(self.entries[k].offset);
            }
            assert(self@[k as int].0 != sfx);
            k += 1;
        }
        proof {
            assert(self@.skip(self@.len() as int) =~= Seq::<(Seq<Seq<u8>>, int)>::empty());
        }
        None
    }

    /// Records that the given name's wire form starts at `offset`.
    fn record(&mut self, name: Name, offset: usize)
        ensures
            final(self)@ == old(self)@.push((name@, offset as int)),
    {
        let ghost nv = name@;
        self.entries.push(RefEntry { name, offset });
        proof {
            assert(self@ =~= old(self)@.push((nv, offset as int)));
        }
    }
}

/// The offset of the first table entry equal to `suffix`, if any.
pub open spec fn spec_find_entry(v: Seq<(Seq<Seq<u8>>, int)>, suffix: Seq<Seq<u8>>) -> Option<int>
    decreases v.len(),
{
    if v.len() == 0 {
        None
    } else if v[0].0 == suffix {
        Some(v[0].1)
    } else {
        spec_find_entry(v.drop_first(), suffix)
    }
}

/// The compression plan for a name: the first label index whose
/// suffix is in the table (with that entry's offset), or the label
/// count with no offset when nothing matches.
pub open spec fn spec_find_compression(
    name: Seq<Seq<u8>>,
    v: Seq<(Seq<Seq<u8>>, int)>,
    i: int,
) -> (int, Option<int>)
    decreases name.len() - i,
{
    if i < 0 || i >= name.len() {
        (name.len() as int, None)
    } else {
        match spec_find_entry(v, name.skip(i)) {
            Some(off) => (i, Some(off)),
            None => spec_find_compression(name, v, i + 1),
        }
    }
}

/// The number of bytes a compressed write of `name` emits: the
/// unmatched label prefix plus a two-byte pointer, or the whole name
/// plus its terminator.
pub open spec fn spec_compressed_len(name: Seq<Seq<u8>>, v: Seq<(Seq<Seq<u8>>, int)>) -> int {
    let (stop, off) = spec_find_compression(name, v, 0);
    encode_partial(name.take(stop)).len() + if off is Some {
        2int
    } else {
        1int
    }
}

/// The compression plan never exceeds the uncompressed length and
/// points at a recorded entry.
pub proof fn lemma_find_compression_shape(
    name: Seq<Seq<u8>>,
    v: Seq<(Seq<Seq<u8>>, int)>,
    i: int,
)
    requires
        0 <= i <= name.len(),
    ensures
        ({
            let (stop, off) = spec_find_compression(name, v, i);
            &&& i <= stop <= name.len()
            &&& (off matches Some(o) ==> spec_find_entry(v, name.skip(stop)) == Some(o))
            &&& (off is None ==> stop == name.len())
        }),
    decreases name.len() - i,
{
    if 0 <= i < name.len() {
        if spec_find_entry(v, name.skip(i)) is Some {
        } else {
            lemma_find_compression_shape(name, v, i + 1);
        }
    }
}

/// A found entry is one of the table's entries.
pub proof fn lemma_find_entry_member(v: Seq<(Seq<Seq<u8>>, int)>, suffix: Seq<Seq<u8>>)
    ensures
        spec_find_entry(v, suffix) matches Some(off) ==> exists|k: int|
            0 <= k < v.len() && v[k] == (suffix, off),
    decreases v.len(),
{
    if v.len() > 0 {
        if v[0].0 == suffix {
            assert(v[0] == (suffix, v[0].1));
        } else {
            lemma_find_entry_member(v.drop_first(), suffix);
            match spec_find_entry(v.drop_first(), suffix) {
                Some(off) => {
                    let k = choose|k: int|
                        0 <= k < v.drop_first().len() && v.drop_first()[k] == (suffix, off);
                    assert(v[k + 1] == (suffix, off));
                },
                None => {},
            }
        }
    }
}

/// Lowercases one ASCII byte; other bytes pass through.
pub open spec fn spec_lower(b: u8) -> u8 {
    if 65 <= b && b <= 90 {
        (b + 32) as u8
    } else {
        b
    }
}

/// Lowercases every byte of every label.
pub open spec fn lower_labels(labels: Seq<Seq<u8>>) -> Seq<Seq<u8>> {
    labels.map_values(|l: Seq<u8>| l.map_values(|b: u8| spec_lower(b)))
}

/// Case-insensitive name equality, the DNS matching convention.
pub open spec fn spec_name_matches(a: Seq<Seq<u8>>, b: Seq<Seq<u8>>) -> bool {
    lower_labels(a) == lower_labels(b)
}

/// Tests two byte strings for equality.
pub(crate) fn bytes_eq(a: &Vec<u8>, b: &Vec<u8>) -> (r: bool)
    ensures
        r == (a@ == b@),
{
    if a.len() != b.len() {
        return false;
    }
    let mut i: usize = 0;
    while i < a.len()
        invariant
            a@.len() == b@.len(),
            i <= a@.len(),
            forall|k: int| 0 <= k < i ==> a@[k] == b@[k],
        decreases a@.len() - i,
    {
        if a[i] != b[i] {
            return false;
        }
        i += 1;
    }
    proof {
        assert(a@ =~= b@);
    }
    true
}

/// Tests two byte strings for equality ignoring ASCII case.
fn bytes_eq_ignore_case(a: &Vec<u8>, b: &Vec<u8>) -> (r: bool)
    ensures
        r == (a@.map_values(|x: u8| spec_lower(x)) == b@.map_values(|x: u8| spec_lower(x))),
{
    let ghost la = a@.map_values(|x: u8| spec_lower(x));
    let ghost lb = b@.map_values(|x: u8| spec_lower(x));
    if a.len() != b.len() {
        assert(la.len() != lb.len());
        return false;
    }
    let mut i: usize = 0;
    while i < a.len()
        invariant
            la == a@.map_values(|x: u8| spec_lower(x)),
            lb == b@.map_values(|x: u8| spec_lower(x)),
            a@.len() == b@.len(),
            i <= a@.len(),
            forall|k: int| 0 <= k < i ==> la[k] == lb[k],
        decreases a@.len() - i,
    {
        let mut x = a[i];
        let mut y = b[i];
        if 65 <= x && x <= 90 {
            x = x + 32;
        }
        if 65 <= y && y <= 90 {
            y = y + 32;
        }
        if x != y {
            assert(la[i as int] != lb[i as int]);
            return false;
        }
        assert(la[i as int] == lb[i as int]);
        i += 1;
    }
    proof {
        assert(la =~= lb);
    }
    true
}

/// A prefix of a label sequence never encodes longer than the whole.
pub proof fn lemma_encode_partial_prefix(labels: Seq<Seq<u8>>, i: int)
    requires
        0 <= i <= labels.len(),
    ensures
        encode_partial(labels.take(i)).len() <= encode_partial(labels).len(),
    decreases labels.len(),
{
    if i > 0 && labels.len() > 0 {
        assert(labels.take(i).drop_first() =~= labels.drop_first().take(i - 1));
        lemma_encode_partial_prefix(labels.drop_first(), i - 1);
    } else {
        assert(labels.take(0) =~= Seq::<Seq<u8>>::empty());
    }
}

/// Decodes labels from `data` at `pos`, chasing at most `fuel`
/// compression pointers, mirroring [`spec_parse_name`] case by case.
fn parse_labels(data: &[u8], pos: usize, fuel: usize) -> (r: Result<
    (Vec<Vec<u8>>, usize),
    SimpleDnsError,
>)
    ensures
        match r {
            Ok((ls, c)) => spec_parse_name(data@, pos as int, fuel as nat) == NameParse::Parsed(
                labels_view(ls),
                c as int,
            ),
            Err(e) => match spec_parse_name(data@, pos as int, fuel as nat) {
                NameParse::Parsed(_, _) => false,
                NameParse::Truncated => e == SimpleDnsError::InsufficientData,
                NameParse::BadLabel => e == SimpleDnsError::UnrecognizedValue,
                NameParse::BadPointer => e == SimpleDnsError::MalformedPointer,
            },
        },
    decreases fuel, data@.len() - pos,
{
    if pos >= data.len() {
        return Err(SimpleDnsError::InsufficientData);
    }
    let b = *vstd::slice::slice_index_get(data, pos);
    if b == 0 {
        let ls: Vec<Vec<u8>> = Vec::new();
        assert(labels_view(ls) =~= Seq::<Seq<u8>>::empty());
        Ok((ls, 1))
    } else if b < 64 {
        let blen = b as usize;
        if blen > data.len() - pos - 1 {
            return Err(SimpleDnsError::InsufficientData);
        }
        let label = vstd::slice::slice_to_vec(vstd::slice::slice_subrange(
            data,
            pos + 1,
            pos + 1 + blen,
        ));
        match parse_labels(data, pos + 1 + blen, fuel) {
            Ok((rest, c)) => {
                proof {
                    lemma_parse_shape(data@, pos as int + 1 + blen as int, fuel as nat);
                }
                let ghost rest_view = labels_view(rest);
                let mut ls = rest;
                ls.insert(0, label);
                proof {
                    assert(labels_view(ls) =~= seq![data@.subrange(
                        pos as int + 1,
                        pos as int + 1 + b as int,
                    )] + rest_view);
                }
                Ok((ls, 1 + blen + c))
            },
            Err(e) => Err(e),
        }
    } else if b < 192 {
        Err(SimpleDnsError::UnrecognizedValue)
    } else {
        if pos + 1 >= data.len() {
            return Err(SimpleDnsError::InsufficientData);
        }
        let hi = (b - 192) as usize;
        let lo = *vstd::slice::slice_index_get(data, pos + 1) as usize;
        let target = hi * 256 + lo;
        if target >= pos || fuel == 0 {
            return Err(SimpleDnsError::MalformedPointer);
        }
        match parse_labels(data, target, fuel - 1) {
            Ok((ls, _)) => Ok((ls, 2)),
            Err(e) => Err(e),
        }
    }
}

} // verus!
