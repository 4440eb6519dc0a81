use vstd::prelude::*;

use crate::id_map::IdMap;
use crate::ids::TaskId;
use pulldown_cmark::{Event, Options, Parser, Tag, TagEnd};

verus! {

/// The events of a markdown document that matter for fragments.
#[derive(Debug)]
pub enum MdEvent {
    /// A heading starts; `id` is its explicit `{#id}` attribute, if any.
    HeadingStart { id: Option<String> },
    /// A heading ends.
    HeadingEnd,
    /// Text.
    Text { text: String },
    /// Inline code.
    Code { text: String },
    /// Anything else.
    Other,
}

/// The value of a markdown event.
pub enum MdEventView {
    HeadingStart { id: Option<Seq<char>> },
    HeadingEnd,
    Text { text: Seq<char> },
    Code { text: Seq<char> },
    Other,
}

impl View for MdEvent {
    type V = MdEventView;

    open spec fn view(&self) -> MdEventView {
        match self {
            MdEvent::HeadingStart { id } => MdEventView::HeadingStart {
                id: match id {
                    Some(s) => Some(s@),
                    None => None,
                },
            },
            MdEvent::HeadingEnd => MdEventView::HeadingEnd,
            MdEvent::Text { text } => MdEventView::Text { text: text@ },
            MdEvent::Code { text } => MdEventView::Code { text: text@ },
            MdEvent::Other => MdEventView::Other,
        }
    }
}

/// The events that pulldown-cmark reads from a document, with heading
/// attributes, math, wiki links and footnotes enabled.
pub uninterp spec fn markdown_events(text: Seq<char>) -> Seq<MdEventView>;

/// The lowercase form of a text, as Rust's `str::to_lowercase` gives it.
pub uninterp spec fn lowercase(text: Seq<char>) -> Seq<char>;

/// Whether a character is alphanumeric, as Rust's `char::is_alphanumeric` says.
pub uninterp spec fn alphanumeric(c: char) -> bool;


/// Reads `input` with `pulldown_cmark::Parser::new_ext` and keeps, for each
/// event, whether it starts a heading (with its id attribute), ends one,
/// carries text or code, or is something else. Claims only that the events
/// are those named by `markdown_events`.
#[verifier::external_body]
fn read_markdown(input: &str) -> (r: Vec<MdEvent>)
    ensures
        r@.map_values(|e: MdEvent| e@) == markdown_events(input@),
{
    let options = Options::ENABLE_HEADING_ATTRIBUTES | Options::ENABLE_MATH | Options::ENABLE_WIKILINKS | Options::ENABLE_FOOTNOTES;
    Parser::new_ext(input, options).map(|event| match event {
        Event::Start(Tag::Heading { id, .. }) => MdEvent::HeadingStart { id: id.map(|s| s.to_string()) },
        Event::End(TagEnd::Heading(_)) => MdEvent::HeadingEnd,
        Event::Text(t) => MdEvent::Text { text: t.to_string() },
        Event::Code(t) => MdEvent::Code { text: t.to_string() },
        _ => MdEvent::Other,
    }).collect()
}

/// Whether a character is an ASCII letter or digit.
pub open spec fn ascii_alphanumeric(c: char) -> bool {
    'a' <= c <= 'z' || 'A' <= c <= 'Z' || '0' <= c <= '9'
}

/// Whether a character is alphanumeric: among ASCII characters exactly the
/// letters and digits, as std documents; beyond ASCII, as `alphanumeric` names.
pub open spec fn is_alnum(c: char) -> bool {
    if (c as u32) < 128 { ascii_alphanumeric(c) } else { alphanumeric(c) }
}

/// Whether a character has the Unicode `White_Space` property, which is
/// what `char::is_whitespace` answers: tab to carriage return, space, next
/// line, no-break space, ogham space mark, the spaces from en quad to hair
/// space, line and paragraph separators, narrow no-break space, medium
/// mathematical space and ideographic space.
pub open spec fn is_white(c: char) -> bool {
    let u = c as u32;
    (9 <= u <= 13) || u == 0x20 || u == 0x85 || u == 0xA0 || u == 0x1680 || (0x2000 <= u <= 0x200A)
        || u == 0x2028 || u == 0x2029 || u == 0x202F || u == 0x205F || u == 0x3000
}

/// An ASCII character in lowercase: `A` to `Z` become `a` to `z`.
pub open spec fn ascii_lower_char(c: char) -> char {
    if 'A' <= c <= 'Z' { ((c as u32) + 32) as char } else { c }
}

/// The lowercase form of a text: character by character for an ASCII text,
/// as the Unicode lowercase mapping that std documents gives it there;
/// otherwise as `lowercase` names.
pub open spec fn to_lower(text: Seq<char>) -> Seq<char> {
    if forall|i: int| 0 <= i < text.len() ==> (#[trigger] text[i] as u32) < 128 {
        text.map_values(|c: char| ascii_lower_char(c))
    } else {
        lowercase(text)
    }
}

/// Lowercases `text` with `str::to_lowercase`; claims the result `to_lower`
/// states: the ASCII case mapping on an ASCII text, else the result named by
/// `lowercase`.
#[verifier::external_body]
fn to_lowercase(text: &str) -> (r: String)
    ensures
        r@ == to_lower(text@),
        !(forall|i: int| 0 <= i < text@.len() ==> (#[trigger] text@[i] as u32) < 128) ==> r@ == lowercase(text@),
{
    text.to_lowercase()
}

/// `char::is_alphanumeric`; claims the answer `is_alnum` states.
#[verifier::external_body]
fn is_alphanumeric(c: char) -> (r: bool)
    ensures
        r == is_alnum(c),
        (c as u32) >= 128 ==> r == alphanumeric(c),
{
    c.is_alphanumeric()
}

/// Whether a character is white space, as `is_white` states.
fn is_whitespace(c: char) -> (r: bool)
    ensures
        r == is_white(c),
{
    let u = c as u32;
    (9 <= u && u <= 13) || u == 0x20 || u == 0x85 || u == 0xA0 || u == 0x1680 || (0x2000 <= u && u <= 0x200A)
        || u == 0x2028 || u == 0x2029 || u == 0x202F || u == 0x205F || u == 0x3000
}

/// The kebab form of lowercase characters: letters, digits, `_` and `-`
/// stay, white space becomes `-`, the rest is dropped.
pub open spec fn kebab_chars(s: Seq<char>) -> Seq<char>
    decreases s.len(),
{
    if s.len() == 0 {
        Seq::empty()
    } else {
        let rest = kebab_chars(s.drop_last());
        let c = s.last();
        if is_alnum(c) || c == '_' || c == '-' {
            rest.push(c)
        } else if is_white(c) {
            rest.push('-')
        } else {
            rest
        }
    }
}

/// The kebab case of a text: its lowercase form, in kebab form.
pub open spec fn kebab(s: Seq<char>) -> Seq<char> {
    kebab_chars(to_lower(s))
}

/// The decimal digits of `n`.
pub open spec fn decimal(n: nat) -> Seq<char>
    decreases n,
{
    if n < 10 {
        seq![digit_char(n)]
    } else {
        decimal(n / 10).push(digit_char(n % 10))
    }
}

/// The character of a decimal digit.
pub open spec fn digit_char(d: nat) -> char {
    if d == 0 { '0' } else if d == 1 { '1' } else if d == 2 { '2' } else if d == 3 { '3' } else if d == 4 { '4' }
    else if d == 5 { '5' } else if d == 6 { '6' } else if d == 7 { '7' } else if d == 8 { '8' } else { '9' }
}

/// The decimal digits of `n`, as a string.
pub(crate) fn decimal_string(n: usize) -> (r: String)
    ensures
        r@ == decimal(n as nat),
    decreases n,
{
    let d = n % 10;
    let c: &str = if d == 0 { "0" } else if d == 1 { "1" } else if d == 2 { "2" } else if d == 3 { "3" }
        else if d == 4 { "4" } else if d == 5 { "5" } else if d == 6 { "6" } else if d == 7 { "7" }
        else if d == 8 { "8" } else { "9" };
    proof {
        reveal_strlit("0");
        reveal_strlit("1");
        reveal_strlit("2");
        reveal_strlit("3");
        reveal_strlit("4");
        reveal_strlit("5");
        reveal_strlit("6");
        reveal_strlit("7");
        reveal_strlit("8");
        reveal_strlit("9");
        assert(c@ == seq![digit_char(d as nat)]);
    }
    if n < 10 {
        String::from_str(c)
    } else {
        let head = decimal_string(n / 10);
        head.concat(c)
    }
}

/// The identifier that the generator gives `heading` after counting the
/// kebab forms in `counts`: the kebab form, followed by `-` and its count
/// when the form was given before.
pub open spec fn heading_id(counts: Map<Seq<char>, nat>, heading: Seq<char>) -> Seq<char> {
    let base = kebab(heading);
    let n: nat = if counts.contains_key(base) { counts[base] } else { 0 };
    if n != 0 {
        base + seq!['-'] + decimal(n)
    } else {
        base
    }
}

/// The counts after giving `heading` an identifier.
pub open spec fn counts_after(counts: Map<Seq<char>, nat>, heading: Seq<char>) -> Map<Seq<char>, nat> {
    let base = kebab(heading);
    let n: nat = if counts.contains_key(base) { counts[base] } else { 0 };
    counts.insert(base, n + 1)
}

/// Gives headings identifiers in GitHub's way: the kebab case, made unique by
/// a counter.
pub struct HeadingIdGenerator {
    counter: Vec<(String, usize)>,
}

impl HeadingIdGenerator {
    /// How often each kebab form was given.
    pub closed spec fn counts(&self) -> Map<Seq<char>, nat> {
        Map::new(
            |k: Seq<char>| exists|i: int| 0 <= i < self.counter@.len() && (#[trigger] self.counter@[i]).0@ == k,
            |k: Seq<char>| {
                let i = choose|i: int| 0 <= i < self.counter@.len() && (#[trigger] self.counter@[i]).0@ == k;
                self.counter@[i].1 as nat
            },
        )
    }

    /// No kebab form is counted twice.
    pub closed spec fn wf(&self) -> bool {
        forall|i: int, j: int| 0 <= i < j < self.counter@.len() ==> (#[trigger] self.counter@[i]).0@ != (#[trigger] self.counter@[j]).0@
    }

    /// A generator that has given nothing.
    pub fn new() -> (r: HeadingIdGenerator)
        ensures
            r.wf(),
            r.counts() == Map::<Seq<char>, nat>::empty(),
    {
        let r = HeadingIdGenerator { counter: Vec::new() };
        proof {
            assert(r.counts() =~= Map::<Seq<char>, nat>::empty());
        }
        r
    }

    /// The kebab case of `text`.
    pub fn into_kebab_case(text: &str) -> (r: String)
        ensures
            r@ == kebab(text@),
    {
        let lower = to_lowercase(text);
        let s = lower.as_str();
        let n = s.unicode_len();
        let mut out = String::new();
        let mut i: usize = 0;
        while i < n
            invariant
                i <= n,
                n == s@.len(),
                s@ == to_lower(text@),
                out@ == kebab_chars(s@.subrange(0, i as int)),
            decreases n - i,
        {
            let c = s.get_char(i);
            proof {
                assert(s@.subrange(0, i + 1).drop_last() == s@.subrange(0, i as int));
                assert(s@.subrange(0, i + 1).last() == c);
                reveal_strlit("-");
            }
            if is_alphanumeric(c) || c == '_' || c == '-' {
                out.append(s.substring_char(i, i + 1));
            } else if is_whitespace(c) {
                out.append("-");
            }
            i = i + 1;
        }
        proof {
            assert(s@.subrange(0, n as int) == s@);
        }
        out
    }

    /// The identifier for `heading`: its kebab case, followed by `-` and a
    /// count when the same kebab case was given before.
    pub fn generate(&mut self, heading: &str) -> (r: String)
        requires
            old(self).wf(),
            forall|k: Seq<char>| #[trigger] old(self).counts().contains_key(k) ==> old(self).counts()[k] < usize::MAX,
        ensures
            final(self).wf(),
            r@ == heading_id(old(self).counts(), heading@),
            final(self).counts() == counts_after(old(self).counts(), heading@),
    {
        let base = HeadingIdGenerator::into_kebab_case(heading);
        let ghost c0 = self.counts();
        let mut i: usize = 0;
        let mut found = false;
        while i < self.counter.len()
            invariant
                i <= self.counter@.len(),
                !found ==> forall|q: int| 0 <= q < i ==> (#[trigger] self.counter@[q]).0@ != base@,
                found ==> i < self.counter@.len() && self.counter@[i as int].0@ == base@,
            ensures
                found || i == self.counter@.len(),
                !found ==> forall|q: int| 0 <= q < i ==> (#[trigger] self.counter@[q]).0@ != base@,
                found ==> i < self.counter@.len() && self.counter@[i as int].0@ == base@,
            decreases self.counter@.len() - i,
        {
            if string_eq(&self.counter[i].0, &base) {
                found = true;
                break;
            }
            i = i + 1;
        }
        let ghost v0 = self.counter@;
        if found {
            let count = self.counter[i].1;
            proof {
                assert(c0.contains_key(base@));
                let j = choose|j: int| 0 <= j < v0.len() && (#[trigger] v0[j]).0@ == base@;
                if j != i {
                    if j < i { assert(v0[j].0@ != v0[i as int].0@); } else { assert(v0[i as int].0@ != v0[j].0@); }
                }
                assert(c0[base@] == count);
            }
            let id = if count != 0 {
                base.clone().concat("-").concat(decimal_string(count).as_str())
            } else {
                base.clone()
            };
            let mut entry = (String::new(), 0usize);
            self.counter.set_and_swap(i, &mut entry);
            let key = entry.0;
            self.counter.set(i, (key, count + 1));
            proof {
                reveal_strlit("-");
                let v1 = self.counter@;
                assert forall|a: int, b: int| 0 <= a < b < v1.len() implies (#[trigger] v1[a]).0@ != (#[trigger] v1[b]).0@ by {
                    assert(v0[a].0@ != v0[b].0@);
                    if a == i { assert(v1[a].0@ == v0[a].0@); }
                    if b == i { assert(v1[b].0@ == v0[b].0@); }
                }
                assert(self.counts() =~= counts_after(c0, heading@)) by {
                    assert forall|k: Seq<char>| #[trigger] self.counts().contains_key(k) <==> counts_after(c0, heading@).contains_key(k) by {
                        if self.counts().contains_key(k) {
                            let q = choose|q: int| 0 <= q < v1.len() && (#[trigger] v1[q]).0@ == k;
                            assert(v0[q].0@ == k);
                        }
                        if c0.contains_key(k) {
                            let q = choose|q: int| 0 <= q < v0.len() && (#[trigger] v0[q]).0@ == k;
                            assert(v1[q].0@ == k);
                        }
                    }
                    assert forall|k: Seq<char>| #[trigger] self.counts().contains_key(k) implies self.counts()[k] == counts_after(c0, heading@)[k] by {
                        let q = choose|q: int| 0 <= q < v1.len() && (#[trigger] v1[q]).0@ == k;
                        let q0 = choose|q: int| 0 <= q < v0.len() && (#[trigger] v0[q]).0@ == k;
                        if q != q0 {
                            if q < q0 { assert(v1[q].0@ != v1[q0].0@); } else { assert(v1[q0].0@ != v1[q].0@); }
                        }
                    }
                }
            }
            id
        } else {
            let id = base.clone();
            self.counter.push((base, 1));
            proof {
                assert(!c0.contains_key(base@)) by {
                    if c0.contains_key(base@) {
                        let j = choose|j: int| 0 <= j < v0.len() && (#[trigger] v0[j]).0@ == base@;
                    }
                }
                let v1 = self.counter@;
                assert forall|a: int, b: int| 0 <= a < b < v1.len() implies (#[trigger] v1[a]).0@ != (#[trigger] v1[b]).0@ by {
                    if b == v0.len() {
                        assert(v0[a].0@ != base@);
                    } else {
                        assert(v0[a].0@ != v0[b].0@);
                    }
                }
                assert(self.counts() =~= counts_after(c0, heading@)) by {
                    assert forall|k: Seq<char>| #[trigger] self.counts().contains_key(k) <==> counts_after(c0, heading@).contains_key(k) by {
                        if self.counts().contains_key(k) {
                            let q = choose|q: int| 0 <= q < v1.len() && (#[trigger] v1[q]).0@ == k;
                            if q < v0.len() {
                                assert(v0[q].0@ == k);
                            }
                        }
                        if c0.contains_key(k) {
                            let q = choose|q: int| 0 <= q < v0.len() && (#[trigger] v0[q]).0@ == k;
                            assert(v1[q].0@ == k);
                        }
                        if k == base@ {
                            assert(v1[v0.len() as int].0@ == k);
                        }
                    }
                    assert forall|k: Seq<char>| #[trigger] self.counts().contains_key(k) implies self.counts()[k] == counts_after(c0, heading@)[k] by {
                        let q = choose|q: int| 0 <= q < v1.len() && (#[trigger] v1[q]).0@ == k;
                        if q < v0.len() {
                            let q0 = choose|q: int| 0 <= q < v0.len() && (#[trigger] v0[q]).0@ == k;
                            if q != q0 {
                                if q < q0 { assert(v0[q].0@ != v0[q0].0@); } else { assert(v0[q0].0@ != v0[q].0@); }
                            }
                        } else {
                            if exists|q2: int| 0 <= q2 < v1.len() && q2 != q && (#[trigger] v1[q2]).0@ == k {
                                let q2 = choose|q2: int| 0 <= q2 < v1.len() && q2 != q && (#[trigger] v1[q2]).0@ == k;
                                assert(v0[q2].0@ != base@);
                            }
                        }
                    }
                }
            }
            id
        }
    }
}

/// The state of a fragment scan: whether a heading is open, its text so far,
/// its explicit identifier, the counts of generated identifiers, and the
/// fragments found, in the order found.
pub struct FragmentScan {
    pub in_heading: bool,
    pub text: Seq<char>,
    pub heading_id: Option<Seq<char>>,
    pub counts: Map<Seq<char>, nat>,
    pub out: Seq<Seq<char>>,
}

/// `out` with `f` added at the end unless it is already there.
pub open spec fn add_fragment(out: Seq<Seq<char>>, f: Seq<char>) -> Seq<Seq<char>> {
    if out.contains(f) { out } else { out.push(f) }
}

/// One event of the scan: a heading start records its identifier; a heading
/// end adds the identifier and, for a heading with text, the generated one;
/// text and inline code inside a heading are collected alike.
pub open spec fn scan_step(st: FragmentScan, e: MdEventView) -> FragmentScan {
    match e {
        MdEventView::HeadingStart { id } => FragmentScan { in_heading: true, heading_id: id, ..st },
        MdEventView::HeadingEnd => {
            let out1 = match st.heading_id {
                Some(f) => add_fragment(st.out, f),
                None => st.out,
            };
            if st.text.len() > 0 {
                FragmentScan {
                    in_heading: false,
                    text: Seq::empty(),
                    heading_id: None,
                    counts: counts_after(st.counts, st.text),
                    out: add_fragment(out1, heading_id(st.counts, st.text)),
                }
            } else {
                FragmentScan { in_heading: false, heading_id: None, out: out1, ..st }
            }
        },
        MdEventView::Text { text } => if st.in_heading {
            FragmentScan { text: st.text + text, ..st }
        } else {
            st
        },
        MdEventView::Code { text } => if st.in_heading {
            FragmentScan { text: st.text + text, ..st }
        } else {
            st
        },
        MdEventView::Other => st,
    }
}

/// The scan of a sequence of events from the start.
pub open spec fn scan(events: Seq<MdEventView>) -> FragmentScan
    decreases events.len(),
{
    if events.len() == 0 {
        FragmentScan { in_heading: false, text: Seq::empty(), heading_id: None, counts: Map::empty(), out: Seq::empty() }
    } else {
        scan_step(scan(events.drop_last()), events.last())
    }
}

/// The fragments of a markdown document, in the order found: the explicit
/// identifier of each heading and the identifier generated from its text.
pub open spec fn markdown_fragments(input: Seq<char>) -> Seq<Seq<char>> {
    scan(markdown_events(input)).out
}

/// Adds `f` to `out` unless it is there.
fn add_fragment_exec(out: &mut Vec<String>, f: String)
    ensures
        final(out)@.map_values(|s: String| s@) == add_fragment(old(out)@.map_values(|s: String| s@), f@),
{
    let ghost v = old(out)@.map_values(|s: String| s@);
    let mut i: usize = 0;
    while i < out.len()
        invariant
            i <= out@.len(),
            out@ == old(out)@,
            v == out@.map_values(|s: String| s@),
            forall|q: int| 0 <= q < i ==> out@[q]@ != f@,
        decreases out@.len() - i,
    {
        if string_eq(&out[i], &f) {
            proof {
                assert(v[i as int] == f@);
                assert(v.contains(f@));
            }
            return;
        }
        i = i + 1;
    }
    proof {
        assert(!v.contains(f@)) by {
            if v.contains(f@) {
                let q = choose|q: int| 0 <= q < v.len() && v[q] == f@;
                assert(out@[q]@ == f@);
            }
        }
    }
    out.push(f);
    proof {
        assert(out@.map_values(|s: String| s@) =~= v.push(f@));
    }
}

/// The fragments of a markdown document, in the order found: for each
/// heading, its `{#id}` attribute and the identifier generated from its text
/// in GitHub's way, each fragment once.
pub fn extract_markdown_fragments(input: &str) -> (r: Vec<String>)
    ensures
        r@.map_values(|s: String| s@) == markdown_fragments(input@),
{
    let events = read_markdown(input);
    fragments_of_events(&events)
}

/// The fragments found by scanning markdown events in order: for each
/// heading, its `{#id}` attribute and the identifier generated from its text
/// and inline code, each fragment once.
pub fn fragments_of_events(events: &Vec<MdEvent>) -> (r: Vec<String>)
    ensures
        r@.map_values(|s: String| s@) == scan(events@.map_values(|e: MdEvent| e@)).out,
{
    let ghost evs = events@.map_values(|e: MdEvent| e@);
    let mut in_heading = false;
    let mut heading_text = String::new();
    let mut heading_id: Option<String> = None;
    let mut generator = HeadingIdGenerator::new();
    let mut out: Vec<String> = Vec::new();
    let mut i: usize = 0;
    while i < events.len()
        invariant
            i <= events@.len(),
            evs == events@.map_values(|e: MdEvent| e@),
            generator.wf(),
            forall|k: Seq<char>| #[trigger] generator.counts().contains_key(k) ==> generator.counts()[k] <= i,
            ({
                let st = scan(evs.subrange(0, i as int));
                &&& st.in_heading == in_heading
                &&& st.text == heading_text@
                &&& st.heading_id == (match heading_id { Some(h) => Some(h@), None => None::<Seq<char>> })
                &&& st.counts == generator.counts()
                &&& st.out == out@.map_values(|s: String| s@)
            }),
        decreases events@.len() - i,
    {
        proof {
            assert(evs.subrange(0, i + 1).drop_last() == evs.subrange(0, i as int));
            assert(evs.subrange(0, i + 1).last() == events@[i as int]@);
        }
        match &events[i] {
            MdEvent::HeadingStart { id } => {
                heading_id = match id {
                    Some(h) => Some(h.clone()),
                    None => None,
                };
                in_heading = true;
            },
            MdEvent::HeadingEnd => {
                match heading_id {
                    Some(f) => {
                        add_fragment_exec(&mut out, f);
                    },
                    None => {},
                }
                heading_id = None;
                if heading_text.as_str().unicode_len() > 0 {
                    let id = generator.generate(heading_text.as_str());
                    add_fragment_exec(&mut out, id);
                    heading_text = String::new();
                }
                in_heading = false;
            },
            MdEvent::Text { text } => {
                if in_heading {
                    heading_text.append(text.as_str());
                }
            },
            MdEvent::Code { text } => {
                if in_heading {
                    heading_text.append(text.as_str());
                }
            },
            MdEvent::Other => {},
        }
        i = i + 1;
    }
    proof {
        assert(evs.subrange(0, events@.len() as int) == evs);
    }
    out
}

/// Why a header gave no fragment.
#[derive(Debug)]
pub enum MetadataError {
    /// The header names no task.
    InvalidTaskId { header: String },
}

/// Collects, for each task, the fragment of its header.
pub struct GitHubMetadataCollector {
    task_fragments: IdMap<String>,
}

/// A text with each run of hyphens cut to one hyphen.
pub open spec fn collapse_hyphens(s: Seq<char>) -> Seq<char>
    decreases s.len(),
{
    if s.len() == 0 {
        s
    } else {
        let r = collapse_hyphens(s.drop_last());
        if s.last() == '-' && r.len() > 0 && r.last() == '-' {
            r
        } else {
            r.push(s.last())
        }
    }
}

/// A text without the hyphen it starts with, nor the one it ends with.
pub open spec fn trim_hyphens(s: Seq<char>) -> Seq<char> {
    let a = if s.len() > 0 && s[0] == '-' { s.drop_first() } else { s };
    if a.len() > 0 && a.last() == '-' { a.drop_last() } else { a }
}

/// A fragment with runs of hyphens cut to one, and no hyphen at either end.
pub open spec fn tidy_fragment(s: Seq<char>) -> Seq<char> {
    trim_hyphens(collapse_hyphens(s))
}

/// The fragment of a header: the first fragment found in it, tidied.
pub open spec fn header_fragment(header: Seq<char>) -> Option<Seq<char>> {
    if markdown_fragments(header).len() > 0 {
        Some(tidy_fragment(markdown_fragments(header)[0]))
    } else {
        None
    }
}

/// The text with runs of hyphens cut to one and no hyphen at either end.
fn tidy_hyphens(text: &str) -> (r: String)
    ensures
        r@ == tidy_fragment(text@),
{
    let n = text.unicode_len();
    let mut out = String::new();
    let mut ends_hyphen = false;
    let mut i: usize = 0;
    while i < n
        invariant
            i <= n,
            n == text@.len(),
            out@ == collapse_hyphens(text@.subrange(0, i as int)),
            ends_hyphen == (out@.len() > 0 && out@.last() == '-'),
        decreases n - i,
    {
        let c = text.get_char(i);
        proof {
            assert(text@.subrange(0, i + 1).drop_last() == text@.subrange(0, i as int));
            assert(text@.subrange(0, i + 1).last() == c);
        }
        if !(c == '-' && ends_hyphen) {
            out.append(text.substring_char(i, i + 1));
            proof {
                assert(text@.subrange(i as int, i + 1) =~= seq![c]);
            }
            ends_hyphen = c == '-';
        }
        i = i + 1;
    }
    proof {
        assert(text@.subrange(0, n as int) == text@);
    }
    let s = out.as_str();
    let m = s.unicode_len();
    let from: usize = if m > 0 && s.get_char(0) == '-' { 1 } else { 0 };
    let to: usize = if m > from && s.get_char(m - 1) == '-' { m - 1 } else { m };
    let r = String::from_str(s.substring_char(from, to));
    proof {
        let c = collapse_hyphens(text@);
        let a = if c.len() > 0 && c[0] == '-' { c.drop_first() } else { c };
        assert(a =~= c.subrange(from as int, m as int));
        if a.len() > 0 && a.last() == '-' {
            assert(a.last() == c[m - 1]);
            assert(a.drop_last() =~= c.subrange(from as int, to as int));
        } else {
            assert(a =~= c.subrange(from as int, to as int));
        }
    }
    r
}

impl GitHubMetadataCollector {
    /// The fragments recorded, by task.
    pub closed spec fn fragment_map(&self) -> Map<TaskId, String> {
        self.task_fragments@
    }

    /// A collector with nothing recorded.
    pub fn new() -> (r: GitHubMetadataCollector)
        ensures
            r.fragment_map() == Map::<TaskId, String>::empty(),
    {
        GitHubMetadataCollector { task_fragments: IdMap::new() }
    }

    /// Records the fragment of the header line of a task.
    pub fn record_task(&mut self, task_id: TaskId, header_line: &str) -> (r: Result<(), MetadataError>)
        ensures
            r is Ok <==> header_fragment(header_line@) is Some,
            r is Ok ==> final(self).fragment_map().dom() == old(self).fragment_map().dom().insert(task_id)
                && final(self).fragment_map()[task_id]@ == header_fragment(header_line@)->Some_0
                && forall|t: TaskId| t != task_id && #[trigger] old(self).fragment_map().contains_key(t)
                    ==> final(self).fragment_map()[t] == old(self).fragment_map()[t],
            r matches Err(MetadataError::InvalidTaskId { header }) ==> header@ == header_line@ && final(self).fragment_map() == old(self).fragment_map(),
    {
        match GitHubMetadataCollector::sanitize_header_to_fragment(header_line) {
            Ok(fragment) => {
                let _ = self.task_fragments.insert(task_id, fragment);
                Ok(())
            },
            Err(e) => Err(e),
        }
    }

    /// The fragment recorded for `task_id`, if any.
    pub fn get_fragment(&self, task_id: TaskId) -> (r: Option<&String>)
        ensures
            r matches Some(f) ==> self.fragment_map().contains_key(task_id) && *f == self.fragment_map()[task_id],
            r is None ==> !self.fragment_map().contains_key(task_id),
    {
        self.task_fragments.get(task_id)
    }

    /// The fragments recorded, by task.
    pub fn fragments(&self) -> (r: &IdMap<String>)
        ensures
            r@ == self.fragment_map(),
    {
        &self.task_fragments
    }

    /// The fragment of a header line: the first fragment of the header read
    /// as markdown, with runs of hyphens cut to one and no hyphen at either
    /// end.
    pub fn sanitize_header_to_fragment(header: &str) -> (r: Result<String, MetadataError>)
        ensures
            r matches Ok(f) ==> header_fragment(header@) == Some(f@),
            r matches Err(MetadataError::InvalidTaskId { header: h }) ==> header_fragment(header@) is None && h@ == header@,
    {
        let mut frags = extract_markdown_fragments(header);
        if frags.len() == 0 {
            return Err(MetadataError::InvalidTaskId { header: String::from_str(header) });
        }
        let mut first = String::new();
        frags.set_and_swap(0, &mut first);
        Ok(tidy_hyphens(first.as_str()))
    }
}

/// Whether two strings hold the same characters.
fn string_eq(a: &String, b: &String) -> (r: bool)
    ensures
        r == (a@ == b@),
{
    let sa = a.as_str();
    let sb = b.as_str();
    let n = sa.unicode_len();
    if n != sb.unicode_len() {
        return false;
    }
    let mut i: usize = 0;
    while i < n
        invariant
            i <= n,
            n == sa@.len(),
            n == sb@.len(),
            sa@ == a@,
            sb@ == b@,
            forall|q: int| 0 <= q < i ==> sa@[q] == sb@[q],
        decreases n - i,
    {
        if sa.get_char(i) != sb.get_char(i) {
            proof {
                assert(sa@[i as int] != sb@[i as int]);
                assert(a@ != b@);
            }
            return false;
        }
        i = i + 1;
    }
    proof {
        assert(sa@ =~= sb@);
    }
    true
}

} // verus!
