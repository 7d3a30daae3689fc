//! The timeline record: its layout, its reader and writer, and the laws
//! that tie them together.

use vstd::prelude::*;
use vstd::utf8::encode_utf8;
use crate::action::ActionCodec;
use crate::bytes::{
    lemma_parse_pas_string_cut, lemma_parse_pas_string_written, lemma_parse_u32_cut,
    lemma_parse_u32_written, parse_pas_string, parse_u32, pas_string, read_pas_string, read_u32_le,
    u32_le, write_pas_string, write_u32_le, DecodeError, ParserOptions,
};

verus! {

/// The format version stamped on a timeline record.
pub const VERSION: u32 = 500;

/// The format version stamped on each moment of a timeline.
pub const VERSION_MOMENT: u32 = 400;

/// A named sequence of moments, each a moment index with its actions.
pub struct Timeline<A> {
    /// The asset name present in GML and the editor.
    pub name: String,
    /// The moments in order, each with the actions that run at it.
    pub moments: Vec<(u32, Vec<A>)>,
}

/// What a timeline holds, as mathematical values.
pub struct TimelineModel<A> {
    pub name: Seq<char>,
    pub moments: Seq<(u32, Seq<A>)>,
}

/// The moments with each action list seen as a sequence.
pub open spec fn moments_model<A>(ms: Seq<(u32, Vec<A>)>) -> Seq<(u32, Seq<A>)> {
    ms.map_values(|m: (u32, Vec<A>)| (m.0, m.1@))
}

impl<A> View for Timeline<A> {
    type V = TimelineModel<A>;

    open spec fn view(&self) -> TimelineModel<A> {
        TimelineModel { name: self.name@, moments: moments_model(self.moments@) }
    }
}

/// Whether the layout can hold `t`: the name's byte length and every count
/// fit in 32 bits.
pub open spec fn encodable<A>(t: TimelineModel<A>) -> bool {
    &&& encode_utf8(t.name).len() <= u32::MAX
    &&& t.moments.len() <= u32::MAX
    &&& forall|i: int| 0 <= i < t.moments.len() ==> #[trigger] t.moments[i].1.len() <= u32::MAX
}

/// The actions' encodings, back to back.
pub open spec fn encode_actions<A: ActionCodec>(acts: Seq<A>) -> Seq<u8>
    decreases acts.len(),
{
    if acts.len() == 0 {
        Seq::empty()
    } else {
        acts[0].spec_encode() + encode_actions(acts.drop_first())
    }
}

/// A moment laid out with `version` in its version field.
pub open spec fn moment_bytes<A: ActionCodec>(m: (u32, Seq<A>), version: u32) -> Seq<u8> {
    u32_le(m.0) + u32_le(version) + u32_le(m.1.len() as u32) + encode_actions(m.1)
}

/// A moment as written.
pub open spec fn encode_moment<A: ActionCodec>(m: (u32, Seq<A>)) -> Seq<u8> {
    moment_bytes(m, VERSION_MOMENT)
}

/// The moments as written, back to back.
pub open spec fn encode_moments<A: ActionCodec>(ms: Seq<(u32, Seq<A>)>) -> Seq<u8>
    decreases ms.len(),
{
    if ms.len() == 0 {
        Seq::empty()
    } else {
        encode_moment(ms[0]) + encode_moments(ms.drop_first())
    }
}

/// A timeline laid out with `version` in its record version field.
pub open spec fn timeline_bytes<A: ActionCodec>(t: TimelineModel<A>, version: u32) -> Seq<u8> {
    pas_string(t.name) + u32_le(version) + u32_le(t.moments.len() as u32) + encode_moments(
        t.moments,
    )
}

/// A timeline as written.
pub open spec fn encode_timeline<A: ActionCodec>(t: TimelineModel<A>) -> Seq<u8> {
    timeline_bytes(t, VERSION)
}

/// The rule for a version field holding `found`: strict mode demands the
/// expected constant exactly, lenient mode accepts anything.
pub open spec fn version_check(expected: u32, found: u32, strict: bool) -> Result<(), DecodeError> {
    if strict && found != expected {
        Err(DecodeError::VersionMismatch { expected, found })
    } else {
        Ok(())
    }
}

/// Reading a version field at `pos`: the position after it.
pub open spec fn parse_version(b: Seq<u8>, pos: nat, expected: u32, strict: bool) -> Result<
    nat,
    DecodeError,
> {
    match parse_u32(b, pos) {
        Err(e) => Err(e),
        Ok((found, end)) => match version_check(expected, found, strict) {
            Err(e) => Err(e),
            Ok(_) => Ok(end),
        },
    }
}

/// Reading one action at `pos` with its codec: the action and the position after it.
pub open spec fn parse_action<A: ActionCodec>(b: Seq<u8>, pos: nat, strict: bool) -> Result<
    (A, nat),
    DecodeError,
> {
    match A::spec_decode(b.skip(pos as int), strict) {
        Err(e) => Err(e),
        Ok((a, n)) => Ok((a, pos + n)),
    }
}

/// Puts `pre` in front of the items of a successful read.
pub open spec fn prepend<T>(pre: Seq<T>, r: Result<(Seq<T>, nat), DecodeError>) -> Result<
    (Seq<T>, nat),
    DecodeError,
> {
    match r {
        Err(e) => Err(e),
        Ok((s, end)) => Ok((pre + s, end)),
    }
}

/// Reading `count` actions in turn from `pos`.
pub open spec fn parse_actions<A: ActionCodec>(b: Seq<u8>, pos: nat, count: nat, strict: bool) -> Result<
    (Seq<A>, nat),
    DecodeError,
>
    decreases count,
{
    if count == 0 {
        Ok((Seq::empty(), pos))
    } else {
        match parse_action::<A>(b, pos, strict) {
            Err(e) => Err(e),
            Ok((a, p)) => prepend(seq![a], parse_actions::<A>(b, p, (count - 1) as nat, strict)),
        }
    }
}

/// Reading one moment at `pos`: index, version field, action count, actions.
#[verifier::opaque]
pub open spec fn parse_moment<A: ActionCodec>(b: Seq<u8>, pos: nat, strict: bool) -> Result<
    ((u32, Seq<A>), nat),
    DecodeError,
> {
    match parse_u32(b, pos) {
        Err(e) => Err(e),
        Ok((index, at_version)) => match parse_version(b, at_version, VERSION_MOMENT, strict) {
            Err(e) => Err(e),
            Ok(at_count) => match parse_u32(b, at_count) {
                Err(e) => Err(e),
                Ok((count, at_items)) => match parse_actions::<A>(b, at_items, count as nat, strict) {
                    Err(e) => Err(e),
                    Ok((acts, at_end)) => Ok(((index, acts), at_end)),
                },
            },
        },
    }
}

/// Reading `count` moments in turn from `pos`.
pub open spec fn parse_moments<A: ActionCodec>(b: Seq<u8>, pos: nat, count: nat, strict: bool) -> Result<
    (Seq<(u32, Seq<A>)>, nat),
    DecodeError,
>
    decreases count,
{
    if count == 0 {
        Ok((Seq::empty(), pos))
    } else {
        match parse_moment::<A>(b, pos, strict) {
            Err(e) => Err(e),
            Ok((m, p)) => prepend(seq![m], parse_moments::<A>(b, p, (count - 1) as nat, strict)),
        }
    }
}

/// Reading a timeline from the front of `b`; bytes after it are left alone.
#[verifier::opaque]
pub open spec fn parse_timeline<A: ActionCodec>(b: Seq<u8>, strict: bool) -> Result<
    TimelineModel<A>,
    DecodeError,
> {
    match parse_pas_string(b, 0) {
        Err(e) => Err(e),
        Ok((name, at_version)) => match parse_version(b, at_version, VERSION, strict) {
            Err(e) => Err(e),
            Ok(at_count) => match parse_u32(b, at_count) {
                Err(e) => Err(e),
                Ok((count, at_items)) => match parse_moments::<A>(b, at_items, count as nat, strict) {
                    Err(e) => Err(e),
                    Ok((moments, _)) => Ok(TimelineModel { name, moments }),
                },
            },
        },
    }
}

/// The encoding of a list of actions splits at any point into the
/// encodings of the two parts.
pub proof fn lemma_encode_actions_split<A: ActionCodec>(acts: Seq<A>, i: int)
    requires
        0 <= i <= acts.len(),
    ensures
        encode_actions(acts) == encode_actions(acts.take(i)) + encode_actions(acts.skip(i)),
    decreases i,
{
    if i == 0 {
        assert(acts.take(0) =~= Seq::<A>::empty());
        assert(acts.skip(0) =~= acts);
        assert(encode_actions(acts) =~= Seq::<u8>::empty() + encode_actions(acts));
    } else {
        let rest = acts.drop_first();
        lemma_encode_actions_split(rest, i - 1);
        assert(acts.take(i)[0] == acts[0]);
        assert(acts.take(i).drop_first() =~= rest.take(i - 1));
        assert(acts.skip(i) =~= rest.skip(i - 1));
        assert(encode_actions(acts) =~= encode_actions(acts.take(i)) + encode_actions(acts.skip(i)));
    }
}

/// Encoding one more action of a list appends that action's encoding.
pub proof fn lemma_encode_actions_step<A: ActionCodec>(acts: Seq<A>, i: int)
    requires
        0 <= i < acts.len(),
    ensures
        encode_actions(acts.take(i + 1)) == encode_actions(acts.take(i)) + acts[i].spec_encode(),
{
    let t = acts.take(i + 1);
    lemma_encode_actions_split(t, i);
    assert(t.take(i) =~= acts.take(i));
    let one = t.skip(i);
    assert(one =~= seq![acts[i]]);
    assert(one[0] == acts[i]);
    assert(one.drop_first() =~= Seq::<A>::empty());
    assert(encode_actions(one.drop_first()) == Seq::<u8>::empty());
    assert(encode_actions(one) =~= acts[i].spec_encode());
}

/// The encoding of a list of moments splits at any point into the
/// encodings of the two parts.
pub proof fn lemma_encode_moments_split<A: ActionCodec>(ms: Seq<(u32, Seq<A>)>, i: int)
    requires
        0 <= i <= ms.len(),
    ensures
        encode_moments(ms) == encode_moments(ms.take(i)) + encode_moments(ms.skip(i)),
    decreases i,
{
    if i == 0 {
        assert(ms.take(0) =~= Seq::<(u32, Seq<A>)>::empty());
        assert(ms.skip(0) =~= ms);
        assert(encode_moments(ms) =~= Seq::<u8>::empty() + encode_moments(ms));
    } else {
        let rest = ms.drop_first();
        lemma_encode_moments_split(rest, i - 1);
        assert(ms.take(i)[0] == ms[0]);
        assert(ms.take(i).drop_first() =~= rest.take(i - 1));
        assert(ms.skip(i) =~= rest.skip(i - 1));
        assert(encode_moments(ms) =~= encode_moments(ms.take(i)) + encode_moments(ms.skip(i)));
    }
}

/// Encoding one more moment of a list appends that moment's encoding.
pub proof fn lemma_encode_moments_step<A: ActionCodec>(ms: Seq<(u32, Seq<A>)>, i: int)
    requires
        0 <= i < ms.len(),
    ensures
        encode_moments(ms.take(i + 1)) == encode_moments(ms.take(i)) + encode_moment(ms[i]),
{
    let t = ms.take(i + 1);
    lemma_encode_moments_split(t, i);
    assert(t.take(i) =~= ms.take(i));
    let one = t.skip(i);
    assert(one =~= seq![ms[i]]);
    assert(one[0] == ms[i]);
    assert(one.drop_first() =~= Seq::<(u32, Seq<A>)>::empty());
    assert(encode_moments(one.drop_first()) == Seq::<u8>::empty());
    assert(encode_moments(one) =~= encode_moment(ms[i]));
}

/// Applies the version-field rule to a value read from a version field.
pub fn check_or_skip_version(expected: u32, found: u32, strict: bool) -> (r: Result<(), DecodeError>)
    ensures
        r == version_check(expected, found, strict),
{
    if strict && found != expected {
        Err(DecodeError::VersionMismatch { expected, found })
    } else {
        Ok(())
    }
}

/// Reads a version field at `pos` and applies the version-field rule to it.
fn read_version(bin: &[u8], pos: usize, expected: u32, strict: bool) -> (r: Result<usize, DecodeError>)
    requires
        pos <= bin@.len(),
    ensures
        match r {
            Ok(e) => e <= bin@.len() && parse_version(bin@, pos as nat, expected, strict) == Ok::<
                nat,
                DecodeError,
            >(e as nat),
            Err(x) => parse_version(bin@, pos as nat, expected, strict) == Err::<nat, DecodeError>(x),
        },
{
    let (found, end) = match read_u32_le(bin, pos) {
        Ok(p) => p,
        Err(e) => return Err(e),
    };
    match check_or_skip_version(expected, found, strict) {
        Ok(()) => Ok(end),
        Err(e) => Err(e),
    }
}

/// Appends the encodings of `actions` in order.
fn serialize_actions<A: ActionCodec>(actions: &Vec<A>, writer: &mut Vec<u8>)
    requires
        old(writer)@.len() + encode_actions(actions@).len() <= usize::MAX,
    ensures
        final(writer)@ == old(writer)@ + encode_actions(actions@),
{
    let mut j: usize = 0;
    while j < actions.len()
        invariant
            j <= actions@.len(),
            writer@ == old(writer)@ + encode_actions(actions@.take(j as int)),
            old(writer)@.len() + encode_actions(actions@).len() <= usize::MAX,
        decreases actions@.len() - j,
    {
        proof {
            lemma_encode_actions_split(actions@, j + 1);
            lemma_encode_actions_step(actions@, j as int);
        }
        actions[j].serialize(writer);
        j += 1;
        assert(writer@ =~= old(writer)@ + encode_actions(actions@.take(j as int)));
    }
    assert(actions@.take(j as int) =~= actions@);
}

/// Appends one moment: its index, the moment version, the action count and
/// the actions.
fn serialize_moment<A: ActionCodec>(index: u32, actions: &Vec<A>, writer: &mut Vec<u8>)
    requires
        actions@.len() <= u32::MAX,
        old(writer)@.len() + encode_moment((index, actions@)).len() <= usize::MAX,
    ensures
        final(writer)@ == old(writer)@ + encode_moment((index, actions@)),
{
    write_u32_le(writer, index);
    write_u32_le(writer, VERSION_MOMENT);
    write_u32_le(writer, actions.len() as u32);
    serialize_actions(actions, writer);
    assert(writer@ =~= old(writer)@ + encode_moment((index, actions@)));
}

/// Reads `count` actions in turn from `pos` with their codec.
fn deserialize_actions<A: ActionCodec>(bin: &[u8], pos: usize, count: u32, options: &ParserOptions) -> (r: Result<
    (Vec<A>, usize),
    DecodeError,
>)
    requires
        pos <= bin@.len(),
    ensures
        match r {
            Ok((v, e)) => e <= bin@.len() && parse_actions::<A>(bin@, pos as nat, count as nat, options.strict)
                == Ok::<(Seq<A>, nat), DecodeError>((v@, e as nat)),
            Err(x) => parse_actions::<A>(bin@, pos as nat, count as nat, options.strict) == Err::<
                (Seq<A>, nat),
                DecodeError,
            >(x),
        },
{
    let mut actions: Vec<A> = Vec::new();
    let mut p: usize = pos;
    let mut i: u32 = 0;
    while i < count
        invariant
            p <= bin@.len(),
            i <= count,
            parse_actions::<A>(bin@, pos as nat, count as nat, options.strict) == prepend(
                actions@,
                parse_actions::<A>(bin@, p as nat, (count - i) as nat, options.strict),
            ),
        decreases count - i,
    {
        let ghost tail = parse_actions::<A>(bin@, p as nat, (count - i) as nat, options.strict);
        match A::deserialize(bin, p, options) {
            Err(e) => {
                return Err(e);
            },
            Ok((a, e)) => {
                proof {
                    A::lemma_decode_within(bin@.skip(p as int), options.strict);
                    let later = parse_actions::<A>(bin@, e as nat, (count - i - 1) as nat, options.strict);
                    match later {
                        Ok((s, end)) => {
                            assert(actions@.push(a) + s =~= actions@ + (seq![a] + s));
                        },
                        Err(_) => {},
                    }
                }
                actions.push(a);
                p = e;
            },
        }
        i += 1;
    }
    assert(actions@ + Seq::<A>::empty() =~= actions@);
    Ok((actions, p))
}

/// Reads one moment at `pos`.
fn deserialize_moment<A: ActionCodec>(bin: &[u8], pos: usize, options: &ParserOptions) -> (r: Result<
    ((u32, Vec<A>), usize),
    DecodeError,
>)
    requires
        pos <= bin@.len(),
    ensures
        match r {
            Ok(((index, v), e)) => e <= bin@.len() && parse_moment::<A>(bin@, pos as nat, options.strict)
                == Ok::<((u32, Seq<A>), nat), DecodeError>(((index, v@), e as nat)),
            Err(x) => parse_moment::<A>(bin@, pos as nat, options.strict) == Err::<
                ((u32, Seq<A>), nat),
                DecodeError,
            >(x),
        },
{
    proof {
        reveal(parse_moment);
    }
    let (index, at_version) = match read_u32_le(bin, pos) {
        Ok(p) => p,
        Err(e) => return Err(e),
    };
    let at_count = match read_version(bin, at_version, VERSION_MOMENT, options.strict) {
        Ok(p) => p,
        Err(e) => return Err(e),
    };
    let (count, at_items) = match read_u32_le(bin, at_count) {
        Ok(p) => p,
        Err(e) => return Err(e),
    };
    match deserialize_actions(bin, at_items, count, options) {
        Ok((actions, at_end)) => Ok(((index, actions), at_end)),
        Err(e) => Err(e),
    }
}

impl<A: ActionCodec> Timeline<A> {
    /// Appends the encoding of this timeline: the name, the record version,
    /// the moment count, then each moment with its actions. Returns the
    /// number of bytes written.
    pub fn serialize(&self, writer: &mut Vec<u8>) -> (n: usize)
        requires
            encodable(self@),
            old(writer)@.len() + encode_timeline(self@).len() <= usize::MAX,
        ensures
            final(writer)@ == old(writer)@ + encode_timeline(self@),
            n == encode_timeline(self@).len(),
    {
        let ghost ms = self@.moments;
        let start = writer.len();
        write_pas_string(writer, self.name.as_str());
        write_u32_le(writer, VERSION);
        write_u32_le(writer, self.moments.len() as u32);
        let ghost head = writer@;
        assert(head =~= old(writer)@ + pas_string(self@.name) + u32_le(VERSION) + u32_le(ms.len() as u32));
        let mut i: usize = 0;
        while i < self.moments.len()
            invariant
                ms == moments_model(self.moments@),
                encodable(self@),
                i <= ms.len(),
                writer@ == head + encode_moments(ms.take(i as int)),
                head.len() + encode_moments(ms).len() <= usize::MAX,
            decreases ms.len() - i,
        {
            proof {
                lemma_encode_moments_split(ms, i + 1);
                lemma_encode_moments_step(ms, i as int);
                assert(ms[i as int].1.len() <= u32::MAX);
            }
            let m = &self.moments[i];
            serialize_moment(m.0, &m.1, writer);
            i += 1;
            assert(writer@ =~= head + encode_moments(ms.take(i as int)));
        }
        assert(ms.take(i as int) =~= ms);
        assert(writer@ =~= old(writer)@ + encode_timeline(self@));
        writer.len() - start
    }

    /// Reads a timeline from the front of `bin`. With `options.strict` every
    /// version field must hold its constant; otherwise version fields are
    /// skipped unread.
    pub fn deserialize(bin: &[u8], options: &ParserOptions) -> (r: Result<Timeline<A>, DecodeError>)
        ensures
            match r {
                Ok(t) => parse_timeline::<A>(bin@, options.strict) == Ok::<TimelineModel<A>, DecodeError>(t@),
                Err(x) => parse_timeline::<A>(bin@, options.strict) == Err::<TimelineModel<A>, DecodeError>(x),
            },
    {
        proof {
            reveal(parse_timeline);
        }
        let (name, at_version) = match read_pas_string(bin, 0) {
            Ok(p) => p,
            Err(e) => return Err(e),
        };
        let at_count = match read_version(bin, at_version, VERSION, options.strict) {
            Ok(p) => p,
            Err(e) => return Err(e),
        };
        let (count, at_items) = match read_u32_le(bin, at_count) {
            Ok(p) => p,
            Err(e) => return Err(e),
        };
        let ghost b = bin@;
        let ghost strict = options.strict;
        let mut moments: Vec<(u32, Vec<A>)> = Vec::new();
        let mut p: usize = at_items;
        let mut i: u32 = 0;
        while i < count
            invariant
                b == bin@,
                strict == options.strict,
                parse_pas_string(b, 0) == Ok::<(Seq<char>, nat), DecodeError>((name@, at_version as nat)),
                parse_version(b, at_version as nat, VERSION, strict) == Ok::<nat, DecodeError>(at_count as nat),
                parse_u32(b, at_count as nat) == Ok::<(u32, nat), DecodeError>((count, at_items as nat)),
                p <= bin@.len(),
                i <= count,
                parse_moments::<A>(b, at_items as nat, count as nat, strict) == prepend(
                    moments_model(moments@),
                    parse_moments::<A>(b, p as nat, (count - i) as nat, strict),
                ),
            decreases count - i,
        {
            match deserialize_moment::<A>(bin, p, options) {
                Err(e) => {
                    proof {
                        reveal(parse_timeline);
                    }
                    return Err(e);
                },
                Ok((m, e)) => {
                    let ghost mm = (m.0, m.1@);
                    proof {
                        let later = parse_moments::<A>(b, e as nat, (count - i - 1) as nat, strict);
                        assert(moments_model(moments@.push(m)) =~= moments_model(moments@).push(mm));
                        match later {
                            Ok((s, end)) => {
                                assert(moments_model(moments@).push(mm) + s =~= moments_model(moments@) + (seq![mm] + s));
                            },
                            Err(_) => {},
                        }
                    }
                    moments.push(m);
                    p = e;
                },
            }
            i += 1;
        }
        assert(moments_model(moments@) + Seq::<(u32, Seq<A>)>::empty() =~= moments_model(moments@));
        proof {
            reveal(parse_timeline);
        }
        Ok(Timeline { name, moments })
    }
}

/// Actions written after `pre` read back in full, whatever follows them.
proof fn lemma_parse_actions_written<A: ActionCodec>(pre: Seq<u8>, acts: Seq<A>, suf: Seq<u8>, strict: bool)
    ensures
        parse_actions::<A>(pre + encode_actions(acts) + suf, pre.len(), acts.len(), strict) == Ok::<
            (Seq<A>, nat),
            DecodeError,
        >((acts, pre.len() + encode_actions(acts).len())),
    decreases acts.len(),
{
    let b = pre + encode_actions(acts) + suf;
    if acts.len() == 0 {
        assert(acts =~= Seq::<A>::empty());
    } else {
        let a = acts[0];
        let rest = acts.drop_first();
        assert(b.skip(pre.len() as int) =~= a.spec_encode() + (encode_actions(rest) + suf));
        A::lemma_decode_encode(a, encode_actions(rest) + suf, strict);
        let pre1 = pre + a.spec_encode();
        assert(b =~= pre1 + encode_actions(rest) + suf);
        lemma_parse_actions_written(pre1, rest, suf, strict);
        assert(seq![a] + rest =~= acts);
    }
}

/// Actions cut before the end of their encoding fail as running out of bytes.
proof fn lemma_parse_actions_cut<A: ActionCodec>(pre: Seq<u8>, acts: Seq<A>, k: nat, strict: bool)
    requires
        k < encode_actions(acts).len(),
    ensures
        parse_actions::<A>(pre + encode_actions(acts).take(k as int), pre.len(), acts.len(), strict)
            == Err::<(Seq<A>, nat), DecodeError>(DecodeError::UnexpectedEof),
    decreases acts.len(),
{
    let b = pre + encode_actions(acts).take(k as int);
    let a = acts[0];
    let rest = acts.drop_first();
    let ea = a.spec_encode();
    if k < ea.len() {
        assert(b.skip(pre.len() as int) =~= ea.take(k as int));
        A::lemma_decode_cut(a, k, strict);
    } else {
        let k1 = (k - ea.len()) as nat;
        assert(b.skip(pre.len() as int) =~= ea + encode_actions(rest).take(k1 as int));
        A::lemma_decode_encode(a, encode_actions(rest).take(k1 as int), strict);
        let pre1 = pre + ea;
        assert(b =~= pre1 + encode_actions(rest).take(k1 as int));
        lemma_parse_actions_cut(pre1, rest, k1, strict);
    }
}

/// A moment written after `pre` with `version` in its version field reads
/// back in full, whatever follows it, unless strict mode rejects the version.
proof fn lemma_parse_moment_bytes<A: ActionCodec>(
    pre: Seq<u8>,
    m: (u32, Seq<A>),
    version: u32,
    suf: Seq<u8>,
    strict: bool,
)
    requires
        m.1.len() <= u32::MAX,
    ensures
        parse_moment::<A>(pre + moment_bytes(m, version) + suf, pre.len(), strict) == (if strict
            && version != VERSION_MOMENT {
            Err::<((u32, Seq<A>), nat), DecodeError>(
                DecodeError::VersionMismatch { expected: VERSION_MOMENT, found: version },
            )
        } else {
            Ok::<((u32, Seq<A>), nat), DecodeError>((m, pre.len() + moment_bytes(m, version).len()))
        }),
{
    reveal(parse_moment);
    let n = m.1.len() as u32;
    let e = encode_actions(m.1);
    let b = pre + moment_bytes(m, version) + suf;
    assert(b =~= pre + u32_le(m.0) + (u32_le(version) + u32_le(n) + e + suf));
    lemma_parse_u32_written(pre, m.0, u32_le(version) + u32_le(n) + e + suf);
    let pre1 = pre + u32_le(m.0);
    assert(b =~= pre1 + u32_le(version) + (u32_le(n) + e + suf));
    lemma_parse_u32_written(pre1, version, u32_le(n) + e + suf);
    let pre2 = pre1 + u32_le(version);
    assert(b =~= pre2 + u32_le(n) + (e + suf));
    lemma_parse_u32_written(pre2, n, e + suf);
    let pre3 = pre2 + u32_le(n);
    assert(b =~= pre3 + e + suf);
    lemma_parse_actions_written(pre3, m.1, suf, strict);
}

/// A moment cut before the end of its encoding fails as running out of bytes.
proof fn lemma_parse_moment_cut<A: ActionCodec>(pre: Seq<u8>, m: (u32, Seq<A>), k: nat, strict: bool)
    requires
        m.1.len() <= u32::MAX,
        k < encode_moment(m).len(),
    ensures
        parse_moment::<A>(pre + encode_moment(m).take(k as int), pre.len(), strict) == Err::<
            ((u32, Seq<A>), nat),
            DecodeError,
        >(DecodeError::UnexpectedEof),
{
    reveal(parse_moment);
    let n = m.1.len() as u32;
    let e = encode_actions(m.1);
    let b = pre + encode_moment(m).take(k as int);
    let pre1 = pre + u32_le(m.0);
    let pre2 = pre1 + u32_le(VERSION_MOMENT);
    let pre3 = pre2 + u32_le(n);
    if k < 4 {
        assert(b =~= pre + u32_le(m.0).take(k as int));
        lemma_parse_u32_cut(pre, m.0, k);
    } else if k < 8 {
        let rest = u32_le(VERSION_MOMENT).take(k - 4);
        assert(b =~= pre + u32_le(m.0) + rest);
        lemma_parse_u32_written(pre, m.0, rest);
        assert(b =~= pre1 + rest);
        lemma_parse_u32_cut(pre1, VERSION_MOMENT, (k - 4) as nat);
    } else if k < 12 {
        let rest = u32_le(n).take(k - 8);
        assert(b =~= pre + u32_le(m.0) + (u32_le(VERSION_MOMENT) + rest));
        lemma_parse_u32_written(pre, m.0, u32_le(VERSION_MOMENT) + rest);
        assert(b =~= pre1 + u32_le(VERSION_MOMENT) + rest);
        lemma_parse_u32_written(pre1, VERSION_MOMENT, rest);
        assert(b =~= pre2 + rest);
        lemma_parse_u32_cut(pre2, n, (k - 8) as nat);
    } else {
        let rest = e.take(k - 12);
        assert(b =~= pre + u32_le(m.0) + (u32_le(VERSION_MOMENT) + u32_le(n) + rest));
        lemma_parse_u32_written(pre, m.0, u32_le(VERSION_MOMENT) + u32_le(n) + rest);
        assert(b =~= pre1 + u32_le(VERSION_MOMENT) + (u32_le(n) + rest));
        lemma_parse_u32_written(pre1, VERSION_MOMENT, u32_le(n) + rest);
        assert(b =~= pre2 + u32_le(n) + rest);
        lemma_parse_u32_written(pre2, n, rest);
        assert(b =~= pre3 + rest);
        lemma_parse_actions_cut(pre3, m.1, (k - 12) as nat, strict);
    }
}

/// Whether every action list of `ms` has a count that fits in 32 bits.
pub open spec fn counts_fit<A>(ms: Seq<(u32, Seq<A>)>) -> bool {
    forall|i: int| 0 <= i < ms.len() ==> #[trigger] ms[i].1.len() <= u32::MAX
}

/// Moments written after `pre` read back in full, whatever follows them.
proof fn lemma_parse_moments_written<A: ActionCodec>(
    pre: Seq<u8>,
    ms: Seq<(u32, Seq<A>)>,
    suf: Seq<u8>,
    strict: bool,
)
    requires
        counts_fit(ms),
    ensures
        parse_moments::<A>(pre + encode_moments(ms) + suf, pre.len(), ms.len(), strict) == Ok::<
            (Seq<(u32, Seq<A>)>, nat),
            DecodeError,
        >((ms, pre.len() + encode_moments(ms).len())),
    decreases ms.len(),
{
    let b = pre + encode_moments(ms) + suf;
    if ms.len() == 0 {
        assert(ms =~= Seq::<(u32, Seq<A>)>::empty());
    } else {
        let m = ms[0];
        let rest = ms.drop_first();
        assert(m.1.len() <= u32::MAX);
        let pre1 = pre + encode_moment(m);
        assert(b =~= pre + encode_moment(m) + (encode_moments(rest) + suf));
        lemma_parse_moment_bytes(pre, m, VERSION_MOMENT, encode_moments(rest) + suf, strict);
        assert(parse_moment::<A>(b, pre.len(), strict) == Ok::<((u32, Seq<A>), nat), DecodeError>(
            (m, pre1.len()),
        ));
        assert(b =~= pre1 + encode_moments(rest) + suf);
        assert(counts_fit(rest)) by {
            assert forall|i: int| 0 <= i < rest.len() implies #[trigger] rest[i].1.len() <= u32::MAX by {
                assert(rest[i] == ms[i + 1]);
            }
        }
        lemma_parse_moments_written(pre1, rest, suf, strict);
        assert(seq![m] + rest =~= ms);
        assert(parse_moments::<A>(b, pre.len(), ms.len(), strict) == prepend(
            seq![m],
            parse_moments::<A>(b, pre1.len(), rest.len(), strict),
        ));
    }
}

/// Moments cut before the end of their encoding fail as running out of bytes.
proof fn lemma_parse_moments_cut<A: ActionCodec>(pre: Seq<u8>, ms: Seq<(u32, Seq<A>)>, k: nat, strict: bool)
    requires
        counts_fit(ms),
        k < encode_moments(ms).len(),
    ensures
        parse_moments::<A>(pre + encode_moments(ms).take(k as int), pre.len(), ms.len(), strict)
            == Err::<(Seq<(u32, Seq<A>)>, nat), DecodeError>(DecodeError::UnexpectedEof),
    decreases ms.len(),
{
    let b = pre + encode_moments(ms).take(k as int);
    let m = ms[0];
    let rest = ms.drop_first();
    let em = encode_moment(m);
    assert(m.1.len() <= u32::MAX);
    if k < em.len() {
        assert(b =~= pre + em.take(k as int));
        lemma_parse_moment_cut(pre, m, k, strict);
    } else {
        let k1 = (k - em.len()) as nat;
        let tail = encode_moments(rest).take(k1 as int);
        assert(b =~= pre + em + tail);
        lemma_parse_moment_bytes(pre, m, VERSION_MOMENT, tail, strict);
        assert(counts_fit(rest)) by {
            assert forall|i: int| 0 <= i < rest.len() implies #[trigger] rest[i].1.len() <= u32::MAX by {
                assert(rest[i] == ms[i + 1]);
            }
        }
        lemma_parse_moments_cut(pre + em, rest, k1, strict);
        assert(b =~= (pre + em) + tail);
    }
}

/// Reading `k + j` moments is reading `k` of them, then `j` more from where
/// the first `k` ended.
proof fn lemma_parse_moments_concat<A: ActionCodec>(b: Seq<u8>, pos: nat, k: nat, j: nat, strict: bool)
    ensures
        parse_moments::<A>(b, pos, k + j, strict) == (match parse_moments::<A>(b, pos, k, strict) {
            Err(e) => Err(e),
            Ok((s, p)) => prepend(s, parse_moments::<A>(b, p, j, strict)),
        }),
    decreases k,
{
    if k == 0 {
        match parse_moments::<A>(b, pos, j, strict) {
            Ok((s, p)) => {
                assert(Seq::<(u32, Seq<A>)>::empty() + s =~= s);
            },
            Err(_) => {},
        }
    } else {
        match parse_moment::<A>(b, pos, strict) {
            Err(_) => {},
            Ok((m, p)) => {
                lemma_parse_moments_concat::<A>(b, p, (k - 1) as nat, j, strict);
                assert((k + j - 1) as nat == ((k - 1) as nat + j) as nat);
                match parse_moments::<A>(b, p, (k - 1) as nat, strict) {
                    Err(_) => {},
                    Ok((s, q)) => {
                        match parse_moments::<A>(b, q, j, strict) {
                            Err(_) => {},
                            Ok((s2, _)) => {
                                assert(seq![m] + (s + s2) =~= (seq![m] + s) + s2);
                            },
                        }
                    },
                }
            },
        }
    }
}

/// The record header (name, record version, moment count) reads back, and
/// the rest is the reading of the moments that follow it.
proof fn lemma_parse_header<A: ActionCodec>(
    name: Seq<char>,
    version: u32,
    n: u32,
    rest: Seq<u8>,
    strict: bool,
)
    requires
        encode_utf8(name).len() <= u32::MAX,
    ensures
        ({
            let b = pas_string(name) + u32_le(version) + u32_le(n) + rest;
            parse_timeline::<A>(b, strict) == if strict && version != VERSION {
                Err::<TimelineModel<A>, DecodeError>(
                    DecodeError::VersionMismatch { expected: VERSION, found: version },
                )
            } else {
                match parse_moments::<A>(b, pas_string(name).len() + 8, n as nat, strict) {
                    Err(e) => Err(e),
                    Ok((ms, _)) => Ok(TimelineModel { name, moments: ms }),
                }
            }
        }),
{
    reveal(parse_timeline);
    let s1 = pas_string(name);
    let b = s1 + u32_le(version) + u32_le(n) + rest;
    assert(b =~= Seq::<u8>::empty() + s1 + (u32_le(version) + u32_le(n) + rest));
    lemma_parse_pas_string_written(Seq::empty(), name, u32_le(version) + u32_le(n) + rest);
    assert(b =~= s1 + u32_le(version) + (u32_le(n) + rest));
    lemma_parse_u32_written(s1, version, u32_le(n) + rest);
    let pre2 = s1 + u32_le(version);
    assert(b =~= pre2 + u32_le(n) + rest);
    lemma_parse_u32_written(pre2, n, rest);
}

/// Round trip: reading the encoding of a timeline that the layout can hold
/// gives that timeline back, in strict and in lenient mode.
pub proof fn lemma_round_trip<A: ActionCodec>(t: TimelineModel<A>, strict: bool)
    requires
        encodable(t),
    ensures
        parse_timeline::<A>(encode_timeline(t), strict) == Ok::<TimelineModel<A>, DecodeError>(t),
{
    lemma_timeline_any_version(t, VERSION, strict);
}

/// The encoding of `t` with any value in its record version field reads back
/// as `t`, unless strict mode rejects that value.
proof fn lemma_timeline_any_version<A: ActionCodec>(t: TimelineModel<A>, version: u32, strict: bool)
    requires
        encodable(t),
    ensures
        parse_timeline::<A>(timeline_bytes(t, version), strict) == if strict && version != VERSION {
            Err::<TimelineModel<A>, DecodeError>(
                DecodeError::VersionMismatch { expected: VERSION, found: version },
            )
        } else {
            Ok::<TimelineModel<A>, DecodeError>(t)
        },
{
    let n = t.moments.len() as u32;
    let e = encode_moments(t.moments);
    let pre3 = pas_string(t.name) + u32_le(version) + u32_le(n);
    lemma_parse_header::<A>(t.name, version, n, e, strict);
    assert(timeline_bytes(t, version) =~= pre3 + e + Seq::<u8>::empty());
    lemma_parse_moments_written(pre3, t.moments, Seq::empty(), strict);
}

/// A foreign record version: the encoding of `t` with a record version other
/// than the constant fails in strict mode with a version mismatch naming the
/// value found, and reads back as `t` in lenient mode.
pub proof fn lemma_foreign_version<A: ActionCodec>(t: TimelineModel<A>, version: u32)
    requires
        encodable(t),
        version != VERSION,
    ensures
        parse_timeline::<A>(timeline_bytes(t, version), true) == Err::<TimelineModel<A>, DecodeError>(
            DecodeError::VersionMismatch { expected: VERSION, found: version },
        ),
        parse_timeline::<A>(timeline_bytes(t, version), false) == Ok::<TimelineModel<A>, DecodeError>(t),
{
    lemma_timeline_any_version(t, version, true);
    lemma_timeline_any_version(t, version, false);
}

/// Truncation: every proper prefix of the encoding of a timeline fails as
/// running out of bytes, in strict and in lenient mode; no shorter timeline
/// is ever read from it.
pub proof fn lemma_truncation<A: ActionCodec>(t: TimelineModel<A>, k: nat, strict: bool)
    requires
        encodable(t),
        k < encode_timeline(t).len(),
    ensures
        parse_timeline::<A>(encode_timeline(t).take(k as int), strict) == Err::<
            TimelineModel<A>,
            DecodeError,
        >(DecodeError::UnexpectedEof),
{
    reveal(parse_timeline);
    let n = t.moments.len() as u32;
    let e = encode_moments(t.moments);
    let s1 = pas_string(t.name);
    let b = encode_timeline(t).take(k as int);
    let h = s1.len() + 8;
    if k < s1.len() {
        assert(b =~= Seq::<u8>::empty() + s1.take(k as int));
        lemma_parse_pas_string_cut(Seq::empty(), t.name, k);
    } else if k < s1.len() + 4 {
        let rest = u32_le(VERSION).take(k - s1.len());
        assert(b =~= Seq::<u8>::empty() + s1 + rest);
        lemma_parse_pas_string_written(Seq::empty(), t.name, rest);
        assert(b =~= s1 + rest);
        lemma_parse_u32_cut(s1, VERSION, (k - s1.len()) as nat);
    } else if k < h {
        let rest = u32_le(n).take(k - s1.len() - 4);
        assert(b =~= Seq::<u8>::empty() + s1 + (u32_le(VERSION) + rest));
        lemma_parse_pas_string_written(Seq::empty(), t.name, u32_le(VERSION) + rest);
        assert(b =~= s1 + u32_le(VERSION) + rest);
        lemma_parse_u32_written(s1, VERSION, rest);
        assert(b =~= (s1 + u32_le(VERSION)) + rest);
        lemma_parse_u32_cut(s1 + u32_le(VERSION), n, (k - s1.len() - 4) as nat);
    } else {
        let rest = e.take(k - h);
        let pre3 = s1 + u32_le(VERSION) + u32_le(n);
        assert(b =~= pre3 + rest);
        lemma_parse_header::<A>(t.name, VERSION, n, rest, strict);
        lemma_parse_moments_cut(pre3, t.moments, (k - h) as nat, strict);
    }
}

/// A timeline laid out with `version` in the version field of its moment at
/// `k`, every other field as written.
pub open spec fn timeline_bytes_moment_version<A: ActionCodec>(
    t: TimelineModel<A>,
    k: int,
    version: u32,
) -> Seq<u8> {
    pas_string(t.name) + u32_le(VERSION) + u32_le(t.moments.len() as u32) + encode_moments(
        t.moments.take(k),
    ) + moment_bytes(t.moments[k], version) + encode_moments(t.moments.skip(k + 1))
}

/// The parts of a list of moments before and after `k` keep their counts in
/// 32 bits.
proof fn lemma_counts_fit_parts<A>(ms: Seq<(u32, Seq<A>)>, k: int)
    requires
        counts_fit(ms),
        0 <= k < ms.len(),
    ensures
        counts_fit(ms.take(k)),
        counts_fit(ms.skip(k + 1)),
        ms[k].1.len() <= u32::MAX,
{
    let before = ms.take(k);
    let after = ms.skip(k + 1);
    assert forall|i: int| 0 <= i < before.len() implies #[trigger] before[i].1.len() <= u32::MAX by {
        assert(before[i] == ms[i]);
    }
    assert forall|i: int| 0 <= i < after.len() implies #[trigger] after[i].1.len() <= u32::MAX by {
        assert(after[i] == ms[i + k + 1]);
    }
}

/// Moments written after `pre` with the version field of the one at `k`
/// holding `version`: those before `k` read back, and all of them read back
/// unless strict mode rejects that value.
proof fn lemma_moments_version_at<A: ActionCodec>(
    pre: Seq<u8>,
    ms: Seq<(u32, Seq<A>)>,
    k: int,
    version: u32,
    strict: bool,
)
    requires
        counts_fit(ms),
        0 <= k < ms.len(),
    ensures
        ({
            let b = pre + encode_moments(ms.take(k)) + moment_bytes(ms[k], version) + encode_moments(
                ms.skip(k + 1),
            );
            &&& parse_moments::<A>(b, pre.len(), k as nat, strict) == Ok::<
                (Seq<(u32, Seq<A>)>, nat),
                DecodeError,
            >((ms.take(k), pre.len() + encode_moments(ms.take(k)).len()))
            &&& parse_moments::<A>(b, pre.len(), ms.len(), strict) == if strict && version
                != VERSION_MOMENT {
                Err::<(Seq<(u32, Seq<A>)>, nat), DecodeError>(
                    DecodeError::VersionMismatch { expected: VERSION_MOMENT, found: version },
                )
            } else {
                Ok::<(Seq<(u32, Seq<A>)>, nat), DecodeError>((ms, b.len()))
            }
        }),
{
    let before = ms.take(k);
    let after = ms.skip(k + 1);
    let a = encode_moments(before);
    let m = moment_bytes(ms[k], version);
    let r = encode_moments(after);
    let b = pre + a + m + r;
    lemma_counts_fit_parts(ms, k);
    assert(b =~= pre + a + (m + r));
    lemma_parse_moments_written(pre, before, m + r, strict);
    let pre1 = pre + a;
    lemma_parse_moment_bytes(pre1, ms[k], version, r, strict);
    let pre2 = pre1 + m;
    assert(b =~= pre2 + r + Seq::<u8>::empty());
    lemma_parse_moments_written(pre2, after, Seq::empty(), strict);
    let rest_count = (ms.len() - k) as nat;
    let ok1 = !(strict && version != VERSION_MOMENT);
    assert(parse_moments::<A>(b, pre2.len(), 0, strict) == Ok::<(Seq<(u32, Seq<A>)>, nat), DecodeError>(
        (Seq::empty(), pre2.len()),
    ));
    assert(seq![ms[k]] + Seq::<(u32, Seq<A>)>::empty() =~= seq![ms[k]]);
    assert(parse_moments::<A>(b, pre1.len(), 1, strict) == if ok1 {
        Ok::<(Seq<(u32, Seq<A>)>, nat), DecodeError>((seq![ms[k]], pre2.len()))
    } else {
        Err::<(Seq<(u32, Seq<A>)>, nat), DecodeError>(
            DecodeError::VersionMismatch { expected: VERSION_MOMENT, found: version },
        )
    });
    lemma_parse_moments_concat::<A>(b, pre1.len(), 1, (rest_count - 1) as nat, strict);
    assert(1 + (rest_count - 1) as nat == rest_count);
    lemma_parse_moments_concat::<A>(b, pre.len(), k as nat, rest_count, strict);
    assert(k as nat + rest_count == ms.len());
    assert(before + (seq![ms[k]] + after) =~= ms);
}

/// Reading the layout of `t` with the version field of its moment at `k`
/// replaced: the moments before `k` read back, and the whole reads back as
/// `t` unless strict mode rejects the replaced value.
proof fn lemma_moment_version_at<A: ActionCodec>(t: TimelineModel<A>, k: int, version: u32, strict: bool)
    requires
        encodable(t),
        0 <= k < t.moments.len(),
    ensures
        parse_moments::<A>(
            timeline_bytes_moment_version(t, k, version),
            pas_string(t.name).len() + 8,
            k as nat,
            strict,
        ) == Ok::<(Seq<(u32, Seq<A>)>, nat), DecodeError>(
            (t.moments.take(k), pas_string(t.name).len() + 8 + encode_moments(t.moments.take(k)).len()),
        ),
        parse_timeline::<A>(timeline_bytes_moment_version(t, k, version), strict) == if strict
            && version != VERSION_MOMENT {
            Err::<TimelineModel<A>, DecodeError>(
                DecodeError::VersionMismatch { expected: VERSION_MOMENT, found: version },
            )
        } else {
            Ok::<TimelineModel<A>, DecodeError>(t)
        },
{
    let ms = t.moments;
    let n = ms.len() as u32;
    let pre0 = pas_string(t.name) + u32_le(VERSION) + u32_le(n);
    let rest = encode_moments(ms.take(k)) + moment_bytes(ms[k], version) + encode_moments(ms.skip(k + 1));
    let b = timeline_bytes_moment_version(t, k, version);
    assert(b =~= pre0 + rest);
    assert(b =~= pre0 + encode_moments(ms.take(k)) + moment_bytes(ms[k], version) + encode_moments(ms.skip(k + 1)));
    lemma_parse_header::<A>(t.name, VERSION, n, rest, strict);
    lemma_moments_version_at::<A>(pre0, ms, k, version, strict);
}

/// Moment versions are checked moment by moment: with the version field of
/// the moment at `k` alone replaced by another value, strict mode reads the
/// moments before `k` and then fails with a mismatch naming that value, and
/// lenient mode reads `t` back.
pub proof fn lemma_moment_version_per_moment<A: ActionCodec>(t: TimelineModel<A>, k: int, version: u32)
    requires
        encodable(t),
        0 <= k < t.moments.len(),
        version != VERSION_MOMENT,
    ensures
        parse_moments::<A>(
            timeline_bytes_moment_version(t, k, version),
            pas_string(t.name).len() + 8,
            k as nat,
            true,
        ) == Ok::<(Seq<(u32, Seq<A>)>, nat), DecodeError>(
            (t.moments.take(k), pas_string(t.name).len() + 8 + encode_moments(t.moments.take(k)).len()),
        ),
        parse_timeline::<A>(timeline_bytes_moment_version(t, k, version), true) == Err::<
            TimelineModel<A>,
            DecodeError,
        >(DecodeError::VersionMismatch { expected: VERSION_MOMENT, found: version }),
        parse_timeline::<A>(timeline_bytes_moment_version(t, k, version), false) == Ok::<
            TimelineModel<A>,
            DecodeError,
        >(t),
{
    lemma_moment_version_at(t, k, version, true);
    lemma_moment_version_at(t, k, version, false);
}

/// Reading `count` actions that succeeds gives exactly `count` actions.
pub proof fn lemma_parse_actions_count<A: ActionCodec>(b: Seq<u8>, pos: nat, count: nat, strict: bool)
    ensures
        parse_actions::<A>(b, pos, count, strict) matches Ok((acts, _)) ==> acts.len() == count,
    decreases count,
{
    if count > 0 {
        match parse_action::<A>(b, pos, strict) {
            Err(_) => {},
            Ok((a, p)) => lemma_parse_actions_count::<A>(b, p, (count - 1) as nat, strict),
        }
    }
}

/// Count-driven framing: a moment that reads successfully carries exactly as
/// many actions as its action-count field says, and a written moment's
/// action-count field holds the number of its actions.
pub proof fn lemma_count_driven_framing<A: ActionCodec>(
    b: Seq<u8>,
    pos: nat,
    strict: bool,
    m: (u32, Seq<A>),
)
    requires
        m.1.len() <= u32::MAX,
    ensures
        parse_moment::<A>(b, pos, strict) matches Ok(((_, acts), _)) ==> parse_u32(b, pos + 8)
            == Ok::<(u32, nat), DecodeError>((acts.len() as u32, pos + 12)) && acts.len() <= u32::MAX,
        parse_u32(encode_moment(m), 8) == Ok::<(u32, nat), DecodeError>((m.1.len() as u32, 12)),
{
    reveal(parse_moment);
    match parse_u32(b, pos) {
        Err(_) => {},
        Ok((_, at_version)) => match parse_version(b, at_version, VERSION_MOMENT, strict) {
            Err(_) => {},
            Ok(at_count) => match parse_u32(b, at_count) {
                Err(_) => {},
                Ok((count, at_items)) => {
                    lemma_parse_actions_count::<A>(b, at_items, count as nat, strict);
                },
            },
        },
    }
    let pre = u32_le(m.0) + u32_le(VERSION_MOMENT);
    assert(encode_moment(m) =~= pre + u32_le(m.1.len() as u32) + encode_actions(m.1));
    lemma_parse_u32_written(pre, m.1.len() as u32, encode_actions(m.1));
}

} // verus!
