//! The vocabulary record and its line codec, and decoding of whole
//! dictionary texts and database rows.
//!
//! One record is a line `name ";" meanings [";" additionals]`, where the
//! meanings are joined with `,` and each additional is a `key ":" value`
//! pair, the pairs joined with `,`.  Meanings are folded to Unicode
//! lowercase when decoded, so answer comparisons are case-insensitive by
//! construction.

use vstd::prelude::*;
use crate::error::{VctError, VctErrorKind};
use crate::text::chars_of;
use crate::text::join_chars;
use crate::text::join_with;
use crate::text::lemma_chars_deep_view;
use crate::text::lemma_strings_deep_view;
use crate::text::strings_to_chars;
use crate::text::lemma_join_free;
use crate::text::lemma_split_join;
use crate::text::lemma_split_nonempty;
use crate::text::contains_char;
use crate::text::lower_of;
use crate::text::lowercase;
use crate::text::str_eq;
use crate::text::split_chars;
use crate::text::split_on;
use crate::text::string_of;

verus! {

/// The mathematical model of a vocabulary record.
#[verifier::ext_equal]
pub struct VocabV {
    pub name: Seq<char>,
    pub meanings: Seq<Seq<char>>,
    pub additionals: Option<Seq<Seq<char>>>,
}

/// One vocabulary record: the term to learn, its accepted meanings, and
/// optional `key:value` additionals.
#[derive(Debug, Clone, PartialEq)]
pub struct Vocab {
    pub name: String,
    pub meanings: Vec<String>,
    pub additionals: Option<Vec<String>>,
}

impl View for Vocab {
    type V = VocabV;

    open spec fn view(&self) -> VocabV {
        VocabV {
            name: self.name@,
            meanings: self.meanings.deep_view(),
            additionals: match self.additionals {
                Option::Some(a) => Option::Some(a.deep_view()),
                Option::None => Option::None,
            },
        }
    }
}

impl DeepView for Vocab {
    type V = VocabV;

    open spec fn deep_view(&self) -> VocabV {
        self.view()
    }
}

/// Each token of a field of additionals must be one `key ":" value` pair;
/// a token with any other number of `:`-separated components collapses to
/// an empty placeholder token.  The placeholder is kept, not dropped, so a
/// malformed pair stays visible in the record.
pub open spec fn norm_pair(tok: Seq<char>) -> Seq<char> {
    if split_on(tok, ':').len() == 2 {
        tok
    } else {
        Seq::empty()
    }
}

/// Case folding of every token in a list.
pub open spec fn lower_all(toks: Seq<Seq<char>>) -> Seq<Seq<char>> {
    Seq::new(toks.len(), |i: int| lower_of(toks[i]))
}

/// Normalisation of every additionals token in a list.
pub open spec fn norm_pairs(toks: Seq<Seq<char>>) -> Seq<Seq<char>> {
    Seq::new(toks.len(), |i: int| norm_pair(toks[i]))
}

/// Decoding one line of text to a record.  `None` is a parse failure:
/// fewer than two `;`-separated fields, or an empty name.  The meanings
/// field always yields at least one token, so a decoded record never has
/// an empty meanings list.  A fourth field and everything after it is
/// ignored.
pub open spec fn spec_decode(line: Seq<char>) -> Option<VocabV> {
    let parts = split_on(line, ';');
    if parts.len() < 2 {
        None
    } else if parts[0].len() == 0 {
        None
    } else {
        Some(
            VocabV {
                name: parts[0],
                meanings: lower_all(split_on(parts[1], ',')),
                additionals: if parts.len() > 2 {
                    Some(norm_pairs(split_on(parts[2], ',')))
                } else {
                    None
                },
            },
        )
    }
}

/// Encoding a record to one line of text: the exact inverse of decoding,
/// with no trailing delimiter when additionals are absent.
pub open spec fn spec_encode(v: VocabV) -> Seq<char> {
    match v.additionals {
        Some(a) => join_with(
            seq![v.name, join_with(v.meanings, ','), join_with(a, ',')],
            ';',
        ),
        None => join_with(seq![v.name, join_with(v.meanings, ',')], ';'),
    }
}

/// A field of a record that survives the line-oriented stores: free of
/// the field separator and of the line breaks that would merge or split
/// records in a one-entry-per-line file.
pub open spec fn field_clean(s: Seq<char>) -> bool {
    &&& !s.contains(';')
    &&& !s.contains('\n')
    &&& !s.contains('\r')
}

/// A record that the codec can reproduce exactly: the name is nonempty
/// and clean, each meaning is its own lowercase folding and clean and
/// free of the list separator, and each additional token is a
/// well-formed pair (or the empty placeholder), clean and free of the
/// list separator.
pub open spec fn wf_encodable(v: VocabV) -> bool {
    &&& v.name.len() > 0
    &&& field_clean(v.name)
    &&& v.meanings.len() >= 1
    &&& forall|k: int|
        0 <= k < v.meanings.len() ==> {
            &&& field_clean(#[trigger] v.meanings[k])
            &&& !v.meanings[k].contains(',')
            &&& lower_of(v.meanings[k]) == v.meanings[k]
        }
    &&& match v.additionals {
        Some(a) => {
            &&& a.len() >= 1
            &&& forall|k: int|
                0 <= k < a.len() ==> {
                    &&& field_clean(#[trigger] a[k])
                    &&& !a[k].contains(',')
                    &&& norm_pair(a[k]) == a[k]
                }
        },
        None => true,
    }
}

fn field_clean_check(v: &Vec<char>) -> (r: bool)
    ensures
        r == field_clean(v@),
{
    !contains_char(v, ';') && !contains_char(v, '\n') && !contains_char(v, '\r')
}

/// A copy of a vector of strings, element by element.
fn clone_strings(v: &Vec<String>) -> (r: Vec<String>)
    ensures
        r@ == v@,
{
    let mut out: Vec<String> = Vec::new();
    let mut i: usize = 0;
    while i < v.len()
        invariant
            i <= v@.len(),
            out@ == v@.take(i as int),
        decreases v@.len() - i,
    {
        out.push(v[i].clone());
        i = i + 1;
        proof {
            assert(out@ =~= v@.take(i as int));
        }
    }
    proof {
        assert(v@.take(v@.len() as int) =~= v@);
    }
    out
}

impl Vocab {
    /// A new record from its parts, exactly as given.
    pub fn new(name: String, meanings: Vec<String>, additionals: Option<Vec<String>>) -> (v: Vocab)
        ensures
            v.name == name,
            v.meanings == meanings,
            v.additionals == additionals,
    {
        Vocab { name, meanings, additionals }
    }

    /// Decode one line of text, as `spec_decode` describes: the name must
    /// be nonempty and at least two `;`-separated fields must exist, and
    /// every meaning is folded to lowercase.
    pub fn from_string(string: String) -> (r: Result<Vocab, VctError>)
        ensures
            match r {
                Ok(v) => spec_decode(string@) == Some(v@),
                Err(e) => {
                    &&& spec_decode(string@) is None
                    &&& e.kind == VctErrorKind::ParsingError
                },
            },
    {
        let cs = chars_of(string.as_str());
        let parts = split_chars(&cs, ';');
        proof {
            lemma_chars_deep_view(&parts);
        }
        let ghost pdv = split_on(string@, ';');
        if parts.len() < 2 {
            return Err(
                VctError::new(VctErrorKind::ParsingError, "omitting necessary parts of vocabulary"),
            );
        }
        if parts[0].len() == 0 {
            return Err(VctError::new(VctErrorKind::ParsingError, "empty name"));
        }
        let name = string_of(&parts[0]);
        let mtoks = split_chars(&parts[1], ',');
        proof {
            lemma_chars_deep_view(&mtoks);
        }
        let ghost mdv = split_on(pdv[1], ',');
        let mut meanings: Vec<String> = Vec::new();
        let mut i: usize = 0;
        while i < mtoks.len()
            invariant
                i <= mtoks@.len(),
                meanings@.len() == i,
                mtoks@.len() == mdv.len(),
                forall|k: int| 0 <= k < mtoks@.len() ==> (#[trigger] mtoks@[k])@ == mdv[k],
                forall|k: int| 0 <= k < i ==> (#[trigger] meanings@[k])@ == lower_of(mdv[k]),
            decreases mtoks@.len() - i,
        {
            meanings.push(lowercase(string_of(&mtoks[i]).as_str()));
            i = i + 1;
        }
        if parts.len() > 2 {
            let atoks = split_chars(&parts[2], ',');
            proof {
                lemma_chars_deep_view(&atoks);
            }
            let ghost adv = split_on(pdv[2], ',');
            let mut adds: Vec<String> = Vec::new();
            let mut j: usize = 0;
            while j < atoks.len()
                invariant
                    j <= atoks@.len(),
                    adds@.len() == j,
                    atoks@.len() == adv.len(),
                    forall|k: int| 0 <= k < atoks@.len() ==> (#[trigger] atoks@[k])@ == adv[k],
                    forall|k: int| 0 <= k < j ==> (#[trigger] adds@[k])@ == norm_pair(adv[k]),
                decreases atoks@.len() - j,
            {
                let ps = split_chars(&atoks[j], ':');
                proof {
                    lemma_chars_deep_view(&ps);
                }
                if ps.len() == 2 {
                    adds.push(string_of(&atoks[j]));
                } else {
                    adds.push(String::new());
                }
                j = j + 1;
            }
            let v = Vocab::new(name, meanings, Some(adds));
            proof {
                lemma_strings_deep_view(&v.meanings);
                assert(v@.meanings =~~= lower_all(mdv));
                match &v.additionals {
                    Option::Some(a) => {
                        lemma_strings_deep_view(a);
                        assert(a.deep_view() =~~= norm_pairs(adv));
                    },
                    Option::None => {},
                }
                assert(spec_decode(string@).unwrap() =~~= v@);
            }
            Ok(v)
        } else {
            let v = Vocab::new(name, meanings, None);
            proof {
                lemma_strings_deep_view(&v.meanings);
                assert(v@.meanings =~~= lower_all(mdv));
                assert(spec_decode(string@).unwrap() =~~= v@);
            }
            Ok(v)
        }
    }

    /// Encode the record to one line, as `spec_encode` describes.
    pub fn encode(&self) -> (r: String)
        ensures
            r@ == spec_encode(self@),
    {
        let mut fields: Vec<Vec<char>> = Vec::new();
        fields.push(chars_of(self.name.as_str()));
        fields.push(join_chars(&strings_to_chars(&self.meanings), ','));
        match &self.additionals {
            Option::Some(a) => {
                fields.push(join_chars(&strings_to_chars(a), ','));
                let line = join_chars(&fields, ';');
                proof {
                    lemma_chars_deep_view(&fields);
                    assert(fields.deep_view() =~~= seq![
                        self@.name,
                        join_with(self@.meanings, ','),
                        join_with(a.deep_view(), ','),
                    ]);
                }
                string_of(&line)
            },
            Option::None => {
                let line = join_chars(&fields, ';');
                proof {
                    lemma_chars_deep_view(&fields);
                    assert(fields.deep_view() =~~= seq![
                        self@.name,
                        join_with(self@.meanings, ','),
                    ]);
                }
                string_of(&line)
            },
        }
    }

    /// Decide at run time whether the codec can reproduce this record:
    /// exactly the hypothesis of the round-trip law.
    pub fn is_normalized(&self) -> (r: bool)
        ensures
            r == wf_encodable(self@),
    {
        let name_cs = chars_of(self.name.as_str());
        if name_cs.len() == 0 || !field_clean_check(&name_cs) {
            return false;
        }
        if self.meanings.len() == 0 {
            return false;
        }
        proof {
            lemma_strings_deep_view(&self.meanings);
        }
        let mut i: usize = 0;
        while i < self.meanings.len()
            invariant
                i <= self.meanings@.len(),
                self.meanings.deep_view().len() == self.meanings@.len(),
                forall|k: int|
                    0 <= k < self.meanings@.len() ==> self.meanings.deep_view()[k] == (
                    #[trigger] self.meanings@[k])@,
                forall|k: int|
                    0 <= k < i ==> {
                        &&& field_clean(#[trigger] self.meanings.deep_view()[k])
                        &&& !self.meanings.deep_view()[k].contains(',')
                        &&& lower_of(self.meanings.deep_view()[k])
                            == self.meanings.deep_view()[k]
                    },
            decreases self.meanings@.len() - i,
        {
            let cs = chars_of(self.meanings[i].as_str());
            if !field_clean_check(&cs) || contains_char(&cs, ',') {
                return false;
            }
            let folded = lowercase(self.meanings[i].as_str());
            if !str_eq(folded.as_str(), self.meanings[i].as_str()) {
                return false;
            }
            i = i + 1;
        }
        match &self.additionals {
            Option::Some(a) => {
                if a.len() == 0 {
                    return false;
                }
                proof {
                    lemma_strings_deep_view(a);
                }
                let mut j: usize = 0;
                while j < a.len()
                    invariant
                        j <= a@.len(),
                        self@.additionals == Some(a.deep_view()),
                        a.deep_view().len() == a@.len(),
                        forall|k: int|
                            0 <= k < a@.len() ==> a.deep_view()[k] == (#[trigger] a@[k])@,
                        forall|k: int|
                            0 <= k < j ==> {
                                &&& field_clean(#[trigger] a.deep_view()[k])
                                &&& !a.deep_view()[k].contains(',')
                                &&& norm_pair(a.deep_view()[k]) == a.deep_view()[k]
                            },
                    decreases a@.len() - j,
                {
                    let cs = chars_of(a[j].as_str());
                    if !field_clean_check(&cs) || contains_char(&cs, ',') {
                        return false;
                    }
                    let ps = split_chars(&cs, ':');
                    if ps.len() != 2 && cs.len() != 0 {
                        proof {
                            assert(norm_pair(cs@) =~= Seq::<char>::empty());
                            assert(norm_pair(cs@) != cs@);
                        }
                        return false;
                    }
                    proof {
                        lemma_chars_deep_view(&ps);
                        if cs@.len() == 0 {
                            assert(norm_pair(cs@) =~= cs@);
                        }
                    }
                    j = j + 1;
                }
                true
            },
            Option::None => true,
        }
    }

    /// Encode the record, after checking that the codec can reproduce
    /// it; the result then decodes back to exactly this record.  Nothing
    /// when the record is not one the codec can reproduce.
    pub fn encode_checked(&self) -> (r: Option<String>)
        ensures
            match r {
                Some(line) => {
                    &&& wf_encodable(self@)
                    &&& line@ == spec_encode(self@)
                    &&& spec_decode(line@) == Some(self@)
                },
                None => !wf_encodable(self@),
            },
    {
        if self.is_normalized() {
            proof {
                lemma_round_trip(self@);
            }
            Some(self.encode())
        } else {
            None
        }
    }

    /// The meanings and additionals fields as the database stores them:
    /// each list joined with `,`, and no additionals column when the
    /// record has none.
    pub fn db_fields(&self) -> (r: (String, Option<String>))
        ensures
            r.0@ == join_with(self@.meanings, ','),
            match (r.1, self@.additionals) {
                (Option::Some(s), Option::Some(a)) => s@ == join_with(a, ','),
                (Option::None, Option::None) => true,
                _ => false,
            },
    {
        let ms = string_of(&join_chars(&strings_to_chars(&self.meanings), ','));
        match &self.additionals {
            Option::Some(a) => (ms, Some(string_of(&join_chars(&strings_to_chars(a), ',')))),
            Option::None => (ms, None),
        }
    }

    /// The meanings, copied out of the record.
    pub fn get_meanings(&self) -> (r: Vec<String>)
        ensures
            r@ == self.meanings@,
    {
        clone_strings(&self.meanings)
    }

    /// The term to learn, copied out of the record.
    pub fn get_name(&self) -> (r: String)
        ensures
            r == self.name,
    {
        self.name.clone()
    }

    /// The additionals, copied out of the record.
    pub fn get_additionals(&self) -> (r: Option<Vec<String>>)
        ensures
            match (r, &self.additionals) {
                (Option::Some(c), Option::Some(a)) => c@ == a@,
                (Option::None, Option::None) => true,
                _ => false,
            },
    {
        match &self.additionals {
            Option::Some(a) => Some(clone_strings(a)),
            Option::None => None,
        }
    }
}

/// One line of a dictionary text, with a trailing carriage return
/// removed, as `str::lines` would hand it out.
pub open spec fn strip_cr(l: Seq<char>) -> Seq<char> {
    if l.len() > 0 && l.last() == '\r' {
        l.drop_last()
    } else {
        l
    }
}

/// The lines of a dictionary text: the text split on newlines, each line
/// without its trailing carriage return.
pub open spec fn spec_lines(contents: Seq<char>) -> Seq<Seq<char>> {
    Seq::new(split_on(contents, '\n').len(), |i: int| strip_cr(split_on(contents, '\n')[i]))
}

/// Decoding a list of lines: blank lines are skipped silently, every
/// other line must decode, and the first failure fails the whole list.
pub open spec fn decode_lines(lines: Seq<Seq<char>>) -> Option<Seq<VocabV>>
    decreases lines.len(),
{
    if lines.len() == 0 {
        Some(Seq::empty())
    } else {
        let rest = decode_lines(lines.drop_first());
        if lines[0].len() == 0 {
            rest
        } else {
            match spec_decode(lines[0]) {
                None => None,
                Some(v) => match rest {
                    None => None,
                    Some(vs) => Some(seq![v] + vs),
                },
            }
        }
    }
}

pub fn strip_cr_vec(v: &Vec<char>) -> (r: Vec<char>)
    ensures
        r@ == strip_cr(v@),
{
    let n: usize = if v.len() > 0 && v[v.len() - 1] == '\r' {
        v.len() - 1
    } else {
        v.len()
    };
    let mut out: Vec<char> = Vec::new();
    let mut i: usize = 0;
    while i < n
        invariant
            i <= n,
            n <= v@.len(),
            out@ == v@.take(n as int).take(i as int),
        decreases n - i,
    {
        out.push(v[i]);
        i = i + 1;
        proof {
            assert(out@ =~= v@.take(n as int).take(i as int));
        }
    }
    proof {
        assert(v@.take(n as int).take(n as int) =~= v@.take(n as int));
        assert(out@ =~= strip_cr(v@));
    }
    out
}

/// Load records from the text of one dictionary file: decode every
/// non-blank line, skip blank lines silently, and propagate the first
/// decode failure.
pub fn load_vocab_from_text(contents: &str) -> (r: Result<Vec<Vocab>, VctError>)
    ensures
        match r {
            Ok(vs) => decode_lines(spec_lines(contents@)) == Some(vs.deep_view()),
            Err(e) => {
                &&& decode_lines(spec_lines(contents@)) is None
                &&& e.kind == VctErrorKind::ParsingError
            },
        },
{
    let cs = chars_of(contents);
    let raw = split_chars(&cs, '\n');
    proof {
        lemma_chars_deep_view(&raw);
    }
    let ghost lns = spec_lines(contents@);
    let mut out: Vec<Vocab> = Vec::new();
    proof {
        assert(lns.skip(0) =~= lns);
        if decode_lines(lns) is Some {
            assert(out.deep_view() + decode_lines(lns).unwrap() =~= decode_lines(lns).unwrap());
        }
    }
    let mut i: usize = 0;
    while i < raw.len()
        invariant
            i <= raw@.len(),
            lns == spec_lines(contents@),
            raw@.len() == lns.len(),
            forall|k: int|
                0 <= k < raw@.len() ==> strip_cr((#[trigger] raw@[k])@) == lns[k],
            decode_lines(lns) == (match decode_lines(lns.skip(i as int)) {
                None => None::<Seq<VocabV>>,
                Some(rest) => Some(out.deep_view() + rest),
            }),
        decreases raw@.len() - i,
    {
        let ghost rem = lns.skip(i as int);
        proof {
            assert(rem.len() > 0);
            assert(rem[0] == lns[i as int]);
            assert(rem.drop_first() =~= lns.skip(i as int + 1));
        }
        let line = strip_cr_vec(&raw[i]);
        if line.len() > 0 {
            match Vocab::from_string(string_of(&line)) {
                Ok(v) => {
                    let ghost dv = out.deep_view();
                    let ghost vv = v@;
                    out.push(v);
                    proof {
                        assert(out.deep_view() =~~= dv.push(vv));
                        if decode_lines(lns.skip(i as int + 1)) is Some {
                            let vs = decode_lines(lns.skip(i as int + 1)).unwrap();
                            assert(decode_lines(rem) == Some(seq![vv] + vs));
                            assert(dv + (seq![vv] + vs) =~= dv.push(vv) + vs);
                        }
                    }
                },
                Err(e) => {
                    proof {
                        assert(decode_lines(rem) is None);
                    }
                    return Err(e);
                },
            }
        }
        i = i + 1;
    }
    proof {
        assert(lns.skip(lns.len() as int) =~= Seq::<Seq<char>>::empty());
        assert(out.deep_view() + Seq::<VocabV>::empty() =~= out.deep_view());
    }
    Ok(out)
}

/// Loading an empty dictionary text yields the empty record list, not an
/// error.
pub proof fn lemma_load_empty_text()
    ensures
        decode_lines(spec_lines(Seq::<char>::empty())) == Some(Seq::<VocabV>::empty()),
{
    let lns = spec_lines(Seq::<char>::empty());
    assert(split_on(Seq::<char>::empty(), '\n') == seq![Seq::<char>::empty()]);
    assert(lns.len() == 1);
    assert(lns[0].len() == 0);
    assert(lns.drop_first() =~= Seq::<Seq<char>>::empty());
    assert(decode_lines(Seq::<Seq<char>>::empty()) == Some(Seq::<VocabV>::empty()));
    assert(decode_lines(lns) == decode_lines(lns.drop_first()));
}

/// Decoding distributes over concatenation of line lists: a failure on
/// either side fails the whole, and successes concatenate.
proof fn lemma_decode_lines_concat(la: Seq<Seq<char>>, lb: Seq<Seq<char>>)
    ensures
        decode_lines(la + lb) == (match (decode_lines(la), decode_lines(lb)) {
            (Some(x), Some(y)) => Some(x + y),
            _ => None::<Seq<VocabV>>,
        }),
    decreases la.len(),
{
    if la.len() == 0 {
        assert(la + lb =~= lb);
        if decode_lines(lb) is Some {
            assert(Seq::<VocabV>::empty() + decode_lines(lb).unwrap() =~= decode_lines(
                lb,
            ).unwrap());
        }
    } else {
        assert((la + lb)[0] == la[0]);
        assert((la + lb).drop_first() =~= la.drop_first() + lb);
        lemma_decode_lines_concat(la.drop_first(), lb);
        if la[0].len() != 0 && spec_decode(la[0]) is Some && decode_lines(la.drop_first()) is Some
            && decode_lines(lb) is Some {
            let v = spec_decode(la[0]).unwrap();
            let x = decode_lines(la.drop_first()).unwrap();
            let y = decode_lines(lb).unwrap();
            assert(seq![v] + (x + y) =~= (seq![v] + x) + y);
        }
    }
}

/// Appending one encoded record, newline-terminated, to a loadable
/// dictionary text appends exactly that record to what loading yields:
/// the store's append-then-load round trip.  The text must be empty or
/// newline-terminated, which is how the writer leaves every file.
pub proof fn lemma_append_then_load(c: Seq<char>, v: VocabV)
    requires
        c.len() == 0 || c.last() == '\n',
        wf_encodable(v),
        decode_lines(spec_lines(c)) is Some,
    ensures
        decode_lines(spec_lines(c + spec_encode(v) + seq!['\n'])) == Some(
            decode_lines(spec_lines(c)).unwrap().push(v),
        ),
{
    let enc = spec_encode(v);
    let t = enc + seq!['\n'];
    lemma_encode_clean(v);
    lemma_round_trip(v);
    crate::text::lemma_split_sep_free(enc, '\n');
    crate::text::lemma_split_push(enc, '\n', '\n');
    assert(t =~= enc.push('\n'));
    assert(split_on(t, '\n') =~~= seq![enc, Seq::<char>::empty()]);
    assert(strip_cr(enc) == enc) by {
        assert(enc[enc.len() - 1] != '\r');
    }
    assert(strip_cr(Seq::<char>::empty()) == Seq::<char>::empty());
    let lt = spec_lines(t);
    assert(lt =~~= seq![enc, Seq::<char>::empty()]);
    assert(decode_lines(seq![Seq::<char>::empty()]) == Some(Seq::<VocabV>::empty())) by {
        assert(seq![Seq::<char>::empty()].drop_first() =~= Seq::<Seq<char>>::empty());
        assert(decode_lines(Seq::<Seq<char>>::empty()) == Some(Seq::<VocabV>::empty()));
    }
    assert(decode_lines(lt) == Some(seq![v])) by {
        assert(lt[0] == enc);
        assert(enc.len() > 0);
        assert(lt.drop_first() =~= seq![Seq::<char>::empty()]);
        assert(seq![v] + Seq::<VocabV>::empty() =~= seq![v]);
    }
    if c.len() == 0 {
        assert(c + enc + seq!['\n'] =~= t);
        lemma_load_empty_text();
        assert(spec_lines(c) =~~= seq![Seq::<char>::empty()]);
        assert(decode_lines(spec_lines(c)).unwrap().push(v) =~= seq![v]);
    } else {
        crate::text::lemma_split_append(c, t, '\n');
        assert(c + enc + seq!['\n'] =~= c + t);
        let sc = split_on(c, '\n');
        let m = sc.len();
        assert(sc.last() == Seq::<char>::empty() && m >= 2) by {
            assert(c =~= c.drop_last().push('\n'));
            crate::text::lemma_split_push(c.drop_last(), '\n', '\n');
            crate::text::lemma_split_nonempty(c.drop_last(), '\n');
        }
        let front = spec_lines(c).take(m - 1);
        assert(spec_lines(c) =~~= front + seq![Seq::<char>::empty()]) by {
            assert(strip_cr(sc[m - 1]) =~= Seq::<char>::empty());
        }
        lemma_decode_lines_concat(front, seq![Seq::<char>::empty()]);
        assert(decode_lines(spec_lines(c)) == decode_lines(front + seq![Seq::<char>::empty()]));
        let x = decode_lines(front).unwrap();
        assert(decode_lines(spec_lines(c)) == Some(x + Seq::<VocabV>::empty()));
        assert(x + Seq::<VocabV>::empty() =~= x);
        assert(spec_lines(c + t) =~~= front + lt) by {
            assert(split_on(c + t, '\n') == sc.take(m - 1) + split_on(t, '\n'));
            assert forall|i: int| 0 <= i < spec_lines(c + t).len() implies spec_lines(c + t)[i]
                == (front + lt)[i] by {
                if i < m - 1 {
                    assert(split_on(c + t, '\n')[i] == sc[i]);
                    assert(front[i] == strip_cr(sc[i]));
                } else {
                    assert(split_on(c + t, '\n')[i] == split_on(t, '\n')[i - (m - 1)]);
                }
            }
        }
        lemma_decode_lines_concat(front, lt);
        assert(decode_lines(spec_lines(c + t)) == Some(x + seq![v]));
        assert(x + seq![v] =~= x.push(v));
    }
}

/// An encoded well-formed record is one nonempty line: free of newlines
/// and carriage returns.
proof fn lemma_encode_clean(v: VocabV)
    requires
        wf_encodable(v),
    ensures
        spec_encode(v).len() > 0,
        !spec_encode(v).contains('\n'),
        !spec_encode(v).contains('\r'),
{
    let ms = join_with(v.meanings, ',');
    lemma_join_free(v.meanings, ',', '\n');
    lemma_join_free(v.meanings, ',', '\r');
    match v.additionals {
        Some(a) => {
            let adds = join_with(a, ',');
            lemma_join_free(a, ',', '\n');
            lemma_join_free(a, ',', '\r');
            let fields = seq![v.name, ms, adds];
            assert forall|k: int| 0 <= k < fields.len() implies !(#[trigger] fields[k]).contains(
                '\n',
            ) && !fields[k].contains('\r') by {}
            lemma_join_free(fields, ';', '\n');
            lemma_join_free(fields, ';', '\r');
            assert(spec_encode(v)[0] == v.name[0]);
        },
        None => {
            let fields = seq![v.name, ms];
            assert forall|k: int| 0 <= k < fields.len() implies !(#[trigger] fields[k]).contains(
                '\n',
            ) && !fields[k].contains('\r') by {}
            lemma_join_free(fields, ';', '\n');
            lemma_join_free(fields, ';', '\r');
            assert(spec_encode(v)[0] == v.name[0]);
        },
    }
}

/// The mathematical model of one database row of the vocabulary table:
/// the stored name, the comma-joined meanings field, and the optional
/// comma-joined additionals field.
#[verifier::ext_equal]
pub struct DbRowV {
    pub name: Seq<char>,
    pub meanings: Seq<char>,
    pub additionals: Option<Seq<char>>,
}

/// One row of the vocabulary table, already read out of the database and
/// filtered to the requested language.
#[derive(Debug, Clone)]
pub struct DbRow {
    pub name: String,
    pub meanings: String,
    pub additionals: Option<String>,
}

impl View for DbRow {
    type V = DbRowV;

    open spec fn view(&self) -> DbRowV {
        DbRowV {
            name: self.name@,
            meanings: self.meanings@,
            additionals: match self.additionals {
                Option::Some(a) => Option::Some(a@),
                Option::None => Option::None,
            },
        }
    }
}

impl DeepView for DbRow {
    type V = DbRowV;

    open spec fn deep_view(&self) -> DbRowV {
        self.view()
    }
}

/// The line of text that a row stands for: the row's fields joined with
/// `;`, the additionals field omitted when the column was NULL.
pub open spec fn row_line(r: DbRowV) -> Seq<char> {
    match r.additionals {
        Some(a) => r.name + seq![';'] + r.meanings + seq![';'] + a,
        None => r.name + seq![';'] + r.meanings,
    }
}

/// Decoding a list of rows: every row must decode, and the first failure
/// fails the whole list.
pub open spec fn decode_rows(rows: Seq<DbRowV>) -> Option<Seq<VocabV>>
    decreases rows.len(),
{
    if rows.len() == 0 {
        Some(Seq::empty())
    } else {
        match spec_decode(row_line(rows[0])) {
            None => None,
            Some(v) => match decode_rows(rows.drop_first()) {
                None => None,
                Some(vs) => Some(seq![v] + vs),
            },
        }
    }
}

impl DbRow {
    /// Decode one row by rebuilding its line and decoding that.
    pub fn decode(&self) -> (r: Result<Vocab, VctError>)
        ensures
            match r {
                Ok(v) => spec_decode(row_line(self@)) == Some(v@),
                Err(e) => {
                    &&& spec_decode(row_line(self@)) is None
                    &&& e.kind == VctErrorKind::ParsingError
                },
            },
    {
        let mut line: String = self.name.clone();
        line.append(";");
        line.append(self.meanings.as_str());
        match &self.additionals {
            Option::Some(a) => {
                line.append(";");
                line.append(a.as_str());
            },
            Option::None => {},
        }
        proof {
            reveal_strlit(";");
            assert(";"@ =~= seq![';']);
            assert(line@ == row_line(self@));
        }
        Vocab::from_string(line)
    }
}

/// Load records from database rows.  A row that fails to decode fails the
/// whole load with a parsing error; it is not silently replaced by a
/// placeholder record, which would skew the session's score denominators.
pub fn load_vocab_from_rows(rows: &Vec<DbRow>) -> (r: Result<Vec<Vocab>, VctError>)
    ensures
        match r {
            Ok(vs) => decode_rows(rows.deep_view()) == Some(vs.deep_view()),
            Err(e) => {
                &&& decode_rows(rows.deep_view()) is None
                &&& e.kind == VctErrorKind::ParsingError
            },
        },
{
    let ghost rv = rows.deep_view();
    let mut out: Vec<Vocab> = Vec::new();
    proof {
        assert(rv.skip(0) =~= rv);
        if decode_rows(rv) is Some {
            assert(out.deep_view() + decode_rows(rv).unwrap() =~= decode_rows(rv).unwrap());
        }
    }
    let mut i: usize = 0;
    while i < rows.len()
        invariant
            i <= rows@.len(),
            rv == rows.deep_view(),
            rows@.len() == rv.len(),
            forall|k: int| 0 <= k < rows@.len() ==> (#[trigger] rows@[k])@ == rv[k],
            decode_rows(rv) == (match decode_rows(rv.skip(i as int)) {
                None => None::<Seq<VocabV>>,
                Some(rest) => Some(out.deep_view() + rest),
            }),
        decreases rows@.len() - i,
    {
        let ghost rem = rv.skip(i as int);
        proof {
            assert(rem.len() > 0);
            assert(rem[0] == rv[i as int]);
            assert(rem.drop_first() =~= rv.skip(i as int + 1));
        }
        match rows[i].decode() {
            Ok(v) => {
                let ghost dv = out.deep_view();
                let ghost vv = v@;
                out.push(v);
                proof {
                    assert(out.deep_view() =~~= dv.push(vv));
                    if decode_rows(rv.skip(i as int + 1)) is Some {
                        let vs = decode_rows(rv.skip(i as int + 1)).unwrap();
                        assert(decode_rows(rem) == Some(seq![vv] + vs));
                        assert(dv + (seq![vv] + vs) =~= dv.push(vv) + vs);
                    }
                }
            },
            Err(e) => {
                proof {
                    assert(decode_rows(rem) is None);
                }
                return Err(e);
            },
        }
        i = i + 1;
    }
    proof {
        assert(rv.skip(rv.len() as int) =~= Seq::<DbRowV>::empty());
        assert(out.deep_view() + Seq::<VocabV>::empty() =~= out.deep_view());
    }
    Ok(out)
}

/// The codec round-trips: decoding an encoded record yields the record
/// back, for every record the codec can reproduce.
pub proof fn lemma_round_trip(v: VocabV)
    requires
        wf_encodable(v),
    ensures
        spec_decode(spec_encode(v)) == Some(v),
{
    let ms = join_with(v.meanings, ',');
    lemma_join_free(v.meanings, ',', ';');
    lemma_split_join(v.meanings, ',');
    assert(lower_all(v.meanings) =~~= v.meanings);
    match v.additionals {
        None => {
            let fields = seq![v.name, ms];
            assert forall|k: int|
                0 <= k < fields.len() implies !(#[trigger] fields[k]).contains(';') by {}
            lemma_split_join(fields, ';');
            let parts = split_on(spec_encode(v), ';');
            assert(parts == fields);
            assert(parts[0] == v.name && parts[1] == ms);
            assert(spec_decode(spec_encode(v)).unwrap() =~~= v);
        },
        Some(a) => {
            let adds = join_with(a, ',');
            lemma_join_free(a, ',', ';');
            lemma_split_join(a, ',');
            assert(norm_pairs(a) =~~= a);
            let fields = seq![v.name, ms, adds];
            assert forall|k: int|
                0 <= k < fields.len() implies !(#[trigger] fields[k]).contains(';') by {}
            lemma_split_join(fields, ';');
            let parts = split_on(spec_encode(v), ';');
            assert(parts == fields);
            assert(parts[0] == v.name && parts[1] == ms && parts[2] == adds);
            assert(spec_decode(spec_encode(v)).unwrap() =~~= v);
        },
    }
}

/// A decoded record never has an empty name or an empty meanings list.
pub proof fn lemma_decode_nonempty(line: Seq<char>, v: VocabV)
    requires
        spec_decode(line) == Some(v),
    ensures
        v.name.len() > 0,
        v.meanings.len() >= 1,
{
    let parts = split_on(line, ';');
    lemma_split_nonempty(parts[1], ',');
}


} // verus!
