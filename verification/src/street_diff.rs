//! Changes of the map after it was taken: where they are found, which of them are
//! pending, and what they do to the ways of a network.

use crate::config::OsmDiffConfig;
use crate::keyed_store::{KeyedStore, StoreKey};
use crate::model::PolylinePoint;
use crate::street_tags::{in_network, matches_mode_way, tagged_name, way_name, StreetMode, Tags};
use crate::text::{
    all_digits, begins_with, chars_of, copy_text, decimal, decimal_text, digits_of_width, fixed_digits, is_digit, joined, parse_number, parsed_number,
    push_char, same_text, starts_with, text_between, text_view, trim_text, trimmed,
};
use crate::text_order::texts_view;
use std::collections::HashMap;
use std::io::Read;
use vstd::prelude::*;

verus! {

/// The bytes that GzDecoder of the flate2 crate gives for bytes; nothing where it
/// cannot.
pub uninterp spec fn inflated(bytes: Seq<u8>) -> Option<Seq<u8>>;

/// A list of bytes that may be missing.
pub open spec fn bytes_view(bytes: Option<Vec<u8>>) -> Option<Seq<u8>> {
    match bytes {
        Some(list) => Some(list@),
        None => None,
    }
}

/// `GzDecoder::new` of the flate2 crate, read to its end. What it gives follows
/// from the bytes alone; which bytes those are for given ones is not stated.
#[verifier::external_body]
fn inflate(bytes: &[u8]) -> (plain: Option<Vec<u8>>)
    ensures
        bytes_view(plain) == inflated(bytes@),
{
    let mut plain: Vec<u8> = Vec::new();
    flate2::read::GzDecoder::new(bytes).read_to_end(&mut plain).ok().map(|_| plain)
}

/// Whether bytes begin as those of a gzip file.
pub open spec fn is_gzip(bytes: Seq<u8>) -> bool {
    bytes.len() >= 2 && bytes[0] == 0x1f && bytes[1] == 0x8b
}

/// The text of a list of changes: as it is, or inflated if it is compressed.
pub fn maybe_decompress_osc(bytes: &[u8]) -> (plain: Option<Vec<u8>>)
    ensures
        bytes_view(plain) == if is_gzip(bytes@) { inflated(bytes@) } else { Some(bytes@) },
{
    if bytes.len() >= 2 && bytes[0] == 0x1f && bytes[1] == 0x8b {
        inflate(bytes)
    } else {
        let mut copy: Vec<u8> = Vec::new();
        let mut i: usize = 0;
        while i < bytes.len()
            invariant
                i <= bytes@.len(),
                copy@ =~= bytes@.take(i as int),
            decreases bytes@.len() - i,
        {
            copy.push(bytes[i]);
            i = i + 1;
        }
        assert(copy@ =~= bytes@);
        Some(copy)
    }
}

/// Whether a text ends with another.
pub open spec fn ends_with(text: Seq<char>, part: Seq<char>) -> bool {
    part.len() <= text.len() && text.skip(text.len() - part.len()) == part
}

/// The parts of a text between characters, as far as it was read: the whole parts
/// that are not empty, and the one that has begun.
pub struct Split {
    pub whole: Seq<Seq<char>>,
    pub begun: Seq<char>,
}

/// The parts of the first `n` characters of a text between a character.
pub open spec fn split_at(text: Seq<char>, separator: char, n: int) -> Split
    decreases n,
{
    if n <= 0 {
        Split { whole: Seq::empty(), begun: Seq::empty() }
    } else {
        let before = split_at(text, separator, n - 1);
        if text[n - 1] == separator {
            Split { whole: if before.begun.len() > 0 { before.whole.push(before.begun) } else { before.whole }, begun: Seq::empty() }
        } else {
            Split { whole: before.whole, begun: before.begun.push(text[n - 1]) }
        }
    }
}

/// The parts of a text between a character that are not empty.
pub open spec fn parts_of(text: Seq<char>, separator: char) -> Seq<Seq<char>> {
    let all = split_at(text, separator, text.len() as int);
    if all.begun.len() > 0 { all.whole.push(all.begun) } else { all.whole }
}

fn push_text(texts: &mut Vec<String>, text: String)
    ensures
        texts_view(final(texts)@) == texts_view(old(texts)@).push(text@),
{
    let ghost before = texts@;
    texts.push(text);
    assert(texts_view(texts@) =~= texts_view(before).push(text@));
}

fn split_parts(text: &str, separator: char) -> (parts: Vec<String>)
    ensures
        texts_view(parts@) == parts_of(text@, separator),
{
    let chars: Vec<char> = chars_of(text);
    let mut parts: Vec<String> = Vec::new();
    let mut begun: String = String::new();
    let mut length: usize = 0;
    let mut i: usize = 0;
    assert(texts_view(parts@) =~= Seq::<Seq<char>>::empty());
    assert(begun@ =~= Seq::<char>::empty());
    while i < chars.len()
        invariant
            i <= chars@.len(),
            chars@ == text@,
            texts_view(parts@) == split_at(text@, separator, i as int).whole,
            begun@ == split_at(text@, separator, i as int).begun,
            length == begun@.len(),
            length <= i,
        decreases chars.len() - i,
    {
        if chars[i] == separator {
            if length > 0 {
                push_text(&mut parts, begun);
            }
            begun = String::new();
            length = 0;
            assert(begun@ =~= Seq::<char>::empty());
        } else {
            push_char(&mut begun, chars[i]);
            length = length + 1;
        }
        i = i + 1;
    }
    if length > 0 {
        push_text(&mut parts, begun);
    }
    parts
}

/// Whether a part of an address is a number of three digits.
pub open spec fn is_number_part(part: Seq<char>) -> bool {
    part.len() == 3 && all_digits(part)
}

/// Parts without the numbers at their end.
pub open spec fn without_numbers(parts: Seq<Seq<char>>) -> Seq<Seq<char>>
    decreases parts.len(),
{
    if parts.len() > 0 && is_number_part(parts.last()) { without_numbers(parts.drop_last()) } else { parts }
}

/// Parts one after the other, with a slash behind each but the last.
pub open spec fn with_slashes(parts: Seq<Seq<char>>) -> Seq<char>
    decreases parts.len(),
{
    if parts.len() == 0 {
        Seq::empty()
    } else if parts.len() == 1 {
        parts[0]
    } else {
        with_slashes(parts.drop_last()) + "/"@ + parts.last()
    }
}

/// The scheme of an address.
pub open spec fn scheme_of(address: Seq<char>) -> Seq<char> {
    if begins_with(address, "https://"@) { "https://"@ } else if begins_with(address, "http://"@) { "http://"@ } else { Seq::empty() }
}

/// A text without another at its end.
pub open spec fn without_end(text: Seq<char>, end: Seq<char>) -> Seq<char> {
    if ends_with(text, end) { text.take(text.len() - end.len()) } else { text }
}

/// The address under which changes are found: without the state file, without
/// the numbers of changes, and with one slash at its end.
pub open spec fn base_of(value: Seq<char>) -> Seq<char> {
    let address = trim_text(value);
    let scheme = scheme_of(address);
    let rest = without_end(address.skip(scheme.len() as int), "state.txt"@);
    scheme + with_slashes(without_numbers(parts_of(rest, '/'))) + "/"@
}

fn is_three_digits(part: &str) -> (number: bool)
    ensures
        number == is_number_part(part@),
{
    let chars: Vec<char> = chars_of(part);
    if chars.len() != 3 {
        return false;
    }
    let mut i: usize = 0;
    while i < 3
        invariant
            i <= 3,
            chars@ == part@,
            chars@.len() == 3,
            forall|k: int| 0 <= k < i ==> is_digit(#[trigger] chars@[k]),
        decreases 3 - i,
    {
        if !('0' <= chars[i] && chars[i] <= '9') {
            assert(!is_digit(part@[i as int]));
            return false;
        }
        i = i + 1;
    }
    assert forall|k: int| 0 <= k < part@.len() implies is_digit(#[trigger] part@[k]) by {
        assert(is_digit(chars@[k]));
    }
    true
}

fn drop_numbers(parts: &mut Vec<String>)
    ensures
        texts_view(final(parts)@) == without_numbers(texts_view(old(parts)@)),
{
    let ghost start = texts_view(parts@);
    let mut more: bool = true;
    while more
        invariant
            more ==> without_numbers(texts_view(parts@)) == without_numbers(start),
            !more ==> texts_view(parts@) == without_numbers(start),
        decreases parts@.len(), more as int,
    {
        let count: usize = parts.len();
        let ghost before = texts_view(parts@);
        if count > 0 && is_three_digits(parts[count - 1].as_str()) {
            assert(before.last() == parts@[count - 1]@);
            let ghost shorter = parts@.drop_last();
            parts.pop();
            assert(texts_view(parts@) =~= before.drop_last());
        } else {
            proof {
                if count > 0 {
                    assert(before.last() == parts@[count - 1]@);
                }
            }
            more = false;
        }
    }
}

fn join_slashes(parts: &Vec<String>) -> (text: String)
    ensures
        text@ == with_slashes(texts_view(parts@)),
{
    let mut text: String = String::new();
    let mut i: usize = 0;
    let ghost all = texts_view(parts@);
    assert(text@ =~= with_slashes(all.take(0)));
    while i < parts.len()
        invariant
            i <= parts.len(),
            all == texts_view(parts@),
            text@ == with_slashes(all.take(i as int)),
        decreases parts.len() - i,
    {
        if i > 0 {
            text.append("/");
        }
        text.append(parts[i].as_str());
        assert(all.take(i + 1).drop_last() =~= all.take(i as int));
        i = i + 1;
        if i == 1 {
            assert(text@ =~= all.take(1)[0]);
        }
    }
    assert(all.take(i as int) =~= all);
    text
}

fn cut_state(chars: &Vec<char>, from: usize) -> (end: usize)
    requires
        from <= chars@.len(),
    ensures
        from <= end <= chars@.len(),
        chars@.subrange(from as int, end as int) == without_end(chars@.skip(from as int), "state.txt"@),
{
    let ending: Vec<char> = chars_of("state.txt");
    let ghost rest = chars@.skip(from as int);
    let n: usize = chars.len() - from;
    if ending.len() <= n {
        let start: usize = chars.len() - ending.len();
        let mut same: bool = true;
        let mut i: usize = 0;
        while i < ending.len() && same
            invariant
                i <= ending@.len(),
                start + ending.len() == chars.len(),
                same ==> forall|k: int| 0 <= k < i ==> chars@[start + k] == ending@[k],
                !same ==> exists|k: int| 0 <= k < ending@.len() && chars@[start + k] != #[trigger] ending@[k],
            decreases ending.len() - i,
        {
            if chars[start + i] != ending[i] {
                same = false;
                assert(chars@[start + i] != ending@[i as int]);
            }
            i = i + 1;
        }
        let ghost tail = rest.skip(rest.len() - ending@.len());
        assert(tail =~= chars@.subrange(start as int, chars@.len() as int));
        if same {
            assert(tail =~= ending@);
            assert(chars@.subrange(from as int, start as int) =~= rest.take(rest.len() - ending@.len()));
            return start;
        }
        proof {
            let k = choose|k: int| 0 <= k < ending@.len() && chars@[start + k] != #[trigger] ending@[k];
            assert(tail[k] != ending@[k]);
        }
    }
    assert(chars@.subrange(from as int, chars@.len() as int) =~= rest);
    chars.len()
}

/// The address under which changes are found.
pub fn normalize_diff_base_url(value: &str) -> (base: String)
    ensures
        base@ == base_of(value@),
{
    let address: String = trimmed(value);
    let scheme: &str = if starts_with(address.as_str(), "https://") { "https://" } else if starts_with(address.as_str(), "http://") { "http://" } else { "" };
    proof {
        reveal_strlit("");
        assert(""@ =~= Seq::<char>::empty());
    }
    let chars: Vec<char> = chars_of(address.as_str());
    let skipped: usize = chars_of(scheme).len();
    let end: usize = cut_state(&chars, skipped);
    let rest: String = text_between(&chars, skipped, end);
    let mut parts: Vec<String> = split_parts(rest.as_str(), '/');
    drop_numbers(&mut parts);
    let mut base: String = scheme.to_owned();
    base.append(join_slashes(&parts).as_str());
    base.append("/");
    base
}

/// The address under which the changes of a configuration are found.
pub fn resolved_diff_base_url(config: &OsmDiffConfig) -> (base: String)
    ensures
        base@ == base_of(
            match config.diff_base_url {
                Some(url) => url@,
                None => config.state_url@,
            },
        ),
{
    match &config.diff_base_url {
        Some(url) => normalize_diff_base_url(url.as_str()),
        None => normalize_diff_base_url(config.state_url.as_str()),
    }
}

/// A number in at least three digits.
pub open spec fn padded(n: int) -> Seq<char> {
    if n < 1000 { fixed_digits(n, 10, 3) } else { decimal_text(n as nat) }
}

fn pad(n: u64) -> (text: String)
    ensures
        text@ == padded(n as int),
{
    if n < 1000 { digits_of_width(n, 10, 3) } else { decimal(n) }
}

/// The address of a list of changes by its number.
pub open spec fn diff_url(base: Seq<char>, sequence: int) -> Seq<char> {
    base_of(base) + padded(sequence / 1000000) + "/"@ + padded(sequence / 1000 % 1000) + "/"@ + padded(sequence % 1000) + ".osc.gz"@
}

/// The address of a list of changes by its number.
pub fn sequence_diff_url(base_url: &str, sequence_number: u64) -> (url: String)
    ensures
        url@ == diff_url(base_url@, sequence_number as int),
{
    let mut url: String = normalize_diff_base_url(base_url);
    url.append(pad(sequence_number / 1000000).as_str());
    url.append("/");
    url.append(pad(sequence_number / 1000 % 1000).as_str());
    url.append("/");
    url.append(pad(sequence_number % 1000).as_str());
    url.append(".osc.gz");
    url
}

/// The state of a source of changes.
#[derive(Clone, Debug)]
pub struct RemoteStateFile {
    pub sequence_number: u64,
    pub timestamp: Option<String>,
}

/// A text with every backslash before a colon taken out.
pub open spec fn unescaped(text: Seq<char>, from: int) -> Seq<char>
    decreases text.len() - from,
{
    if from < 0 || from >= text.len() {
        Seq::empty()
    } else if text[from] == '\\' && from + 1 < text.len() && text[from + 1] == ':' {
        seq![':'] + unescaped(text, from + 2)
    } else {
        seq![text[from]] + unescaped(text, from + 1)
    }
}

fn unescape(chars: &Vec<char>, from: usize) -> (text: String)
    requires
        from <= chars@.len(),
    ensures
        text@ == unescaped(chars@.skip(from as int), 0),
{
    let ghost rest = chars@.skip(from as int);
    let mut text: String = String::new();
    let mut i: usize = from;
    assert(text@ + unescaped(rest, 0) =~= unescaped(rest, 0));
    while i < chars.len()
        invariant
            from <= i <= chars@.len(),
            rest == chars@.skip(from as int),
            text@ + unescaped(rest, i - from) == unescaped(rest, 0),
        decreases chars.len() - i,
    {
        let ghost before = text@;
        assert(rest[i - from] == chars@[i as int]);
        if chars[i] == '\\' && i < chars.len() - 1 && chars[i + 1] == ':' {
            assert(rest[i + 1 - from] == chars@[i + 1]);
            push_char(&mut text, ':');
            i = i + 2;
            assert(text@ + unescaped(rest, i - from) =~= before + (seq![':'] + unescaped(rest, i - from)));
        } else {
            let c: char = chars[i];
            push_char(&mut text, c);
            i = i + 1;
            assert(text@ + unescaped(rest, i - from) =~= before + (seq![c] + unescaped(rest, i - from)));
        }
    }
    assert(unescaped(rest, i - from) =~= Seq::<char>::empty());
    assert(text@ =~= text@ + unescaped(rest, i - from));
    text
}

/// What a state file has said so far.
pub struct StateView {
    pub sequence: Option<int>,
    pub timestamp: Option<Seq<char>>,
}

/// What a state file says after a line.
pub open spec fn state_after_line(state: StateView, line: Seq<char>) -> StateView {
    let text = trim_text(line);
    if begins_with(text, "sequenceNumber="@) {
        StateView { sequence: parsed_number(trim_text(text.skip("sequenceNumber="@.len() as int)), u64::MAX as int), ..state }
    } else if begins_with(text, "timestamp="@) {
        StateView { timestamp: Some(unescaped(text.skip("timestamp="@.len() as int), 0)), ..state }
    } else {
        state
    }
}

/// What the first `n` lines of a state file say.
pub open spec fn state_of_lines(lines: Seq<Seq<char>>, n: int) -> StateView
    decreases n,
{
    if n <= 0 { StateView { sequence: None, timestamp: None } } else { state_after_line(state_of_lines(lines, n - 1), lines[n - 1]) }
}

/// What a state file says, by its lines that are not empty.
pub open spec fn state_of(body: Seq<char>) -> StateView {
    let lines = parts_of(body, '\n');
    state_of_lines(lines, lines.len() as int)
}

/// Reads a state file. One without a number cannot be used.
pub fn parse_remote_state_file(body: &str) -> (state: Option<RemoteStateFile>)
    ensures
        match state {
            Some(found) => state_of(body@).sequence == Some(found.sequence_number as int) && text_view(found.timestamp) == state_of(body@).timestamp,
            None => state_of(body@).sequence is None,
        },
{
    let lines: Vec<String> = split_parts(body, '\n');
    let ghost all = texts_view(lines@);
    let mut sequence: Option<u64> = None;
    let mut timestamp: Option<String> = None;
    let mut i: usize = 0;
    while i < lines.len()
        invariant
            i <= lines@.len(),
            all == texts_view(lines@),
            (match sequence {
                Some(value) => Some(value as int),
                None => None,
            }) == state_of_lines(all, i as int).sequence,
            text_view(timestamp) == state_of_lines(all, i as int).timestamp,
        decreases lines.len() - i,
    {
        let text: String = trimmed(lines[i].as_str());
        let chars: Vec<char> = chars_of(text.as_str());
        assert(all[i as int] == lines@[i as int]@);
        if starts_with(text.as_str(), "sequenceNumber=") {
            let skipped: usize = chars_of("sequenceNumber=").len();
            let value: String = text_between(&chars, skipped, chars.len());
            assert(value@ =~= text@.skip("sequenceNumber="@.len() as int));
            sequence = parse_number(trimmed(value.as_str()).as_str(), u64::MAX);
        } else if starts_with(text.as_str(), "timestamp=") {
            let skipped: usize = chars_of("timestamp=").len();
            timestamp = Some(unescape(&chars, skipped));
        }
        i = i + 1;
    }
    match sequence {
        Some(sequence_number) => Some(RemoteStateFile { sequence_number: sequence_number, timestamp: timestamp }),
        None => None,
    }
}

/// What is done with the changes of a source.
#[derive(Clone, Copy, Debug, PartialEq, Eq, Structural)]
pub enum PollPlan {
    /// All are applied, up to a number.
    UpToDate { applied: u64 },
    /// Those from one number to another are applied, in order.
    Apply { first: u64, last: u64 },
}

/// What is done with the changes of a source: those after the last applied one,
/// or after the one that the map was taken with, or none where neither is known.
pub open spec fn poll_plan_of(applied: Option<u64>, taken_with: Option<u64>, remote: u64) -> PollPlan {
    let known = if applied is Some { applied->0 } else if taken_with is Some { taken_with->0 } else { remote };
    if remote <= known { PollPlan::UpToDate { applied: known } } else { PollPlan::Apply { first: (known + 1) as u64, last: remote } }
}

/// Plans what is done with the changes of a source.
pub fn plan_poll(applied: Option<u64>, taken_with: Option<u64>, remote: u64) -> (plan: PollPlan)
    ensures
        plan == poll_plan_of(applied, taken_with, remote),
{
    let known: u64 = match applied {
        Some(sequence) => sequence,
        None => match taken_with {
            Some(sequence) => sequence,
            None => remote,
        },
    };
    if remote <= known { PollPlan::UpToDate { applied: known } } else { PollPlan::Apply { first: known + 1, last: remote } }
}

/// After the changes of a plan were applied, there are none left to apply until
/// the source has more.
pub proof fn applied_changes_are_not_applied_again(applied: Option<u64>, taken_with: Option<u64>, remote: u64)
    ensures
        match poll_plan_of(applied, taken_with, remote) {
            PollPlan::Apply { first, last } => first <= last && poll_plan_of(Some(last), taken_with, remote) == (PollPlan::UpToDate { applied: last }),
            PollPlan::UpToDate { applied: known } => poll_plan_of(Some(known), taken_with, remote) == (PollPlan::UpToDate { applied: known }),
        },
{
}

/// Whether a map was taken from another source than the changes are found at.
pub fn diff_base_mismatch(anchor_base_url: &Option<String>, config: &OsmDiffConfig) -> (mismatch: bool)
    ensures
        mismatch == match *anchor_base_url {
            Some(url) => base_of(url@) != base_of(
                match config.diff_base_url {
                    Some(base) => base@,
                    None => config.state_url@,
                },
            ),
            None => false,
        },
{
    match anchor_base_url {
        Some(url) => !same_text(normalize_diff_base_url(url.as_str()).as_str(), resolved_diff_base_url(config).as_str()),
        None => false,
    }
}

/// What is done to a way.
#[derive(Clone, Copy, Debug, PartialEq, Eq, Structural)]
pub enum OscAction {
    Create,
    Modify,
    Delete,
}

/// A way that has changed.
pub struct OscWayChange {
    pub action: OscAction,
    pub way_id: i64,
    pub node_refs: Vec<i64>,
    pub coordinates: Vec<PolylinePoint>,
    pub tags: Tags,
}

/// A way that has changed, as plain values.
pub struct WayChangeView {
    pub action: OscAction,
    pub way_id: i64,
    pub node_refs: Seq<i64>,
    pub coordinates: Seq<PolylinePoint>,
    pub tags: Map<Seq<char>, String>,
}

impl OscWayChange {
    /// The change as plain values.
    pub open spec fn view(&self) -> WayChangeView {
        WayChangeView { action: self.action, way_id: self.way_id, node_refs: self.node_refs@, coordinates: self.coordinates@, tags: self.tags@ }
    }
}

/// Changes as plain values.
pub open spec fn changes_view(changes: Seq<OscWayChange>) -> Seq<WayChangeView> {
    Seq::new(changes.len(), |i: int| changes[i]@)
}

/// What an element of a list of changes gives: its name, and of its attributes
/// those that could be read.
pub struct OscElement {
    pub name: String,
    pub id: Option<i64>,
    pub reference: Option<i64>,
    pub key: Option<String>,
    pub value: Option<String>,
    pub place: Option<PolylinePoint>,
}

/// What comes in a list of changes.
pub enum OscEvent {
    /// An element that has others in it begins.
    Start(OscElement),
    /// An element without others in it.
    Empty(OscElement),
    /// An element with others in it ends.
    End(String),
}

/// How far a list of changes was read.
pub struct OscReader {
    action: OscAction,
    nodes: HashMap<i64, PolylinePoint>,
    current: Option<OscWayChange>,
    ways: Vec<OscWayChange>,
}

/// How far a list of changes was read, as plain values.
pub struct OscView {
    pub action: OscAction,
    pub nodes: Map<i64, PolylinePoint>,
    pub current: Option<WayChangeView>,
    pub ways: Seq<WayChangeView>,
}

/// Nodes with one more, if an element gives its number and place.
pub open spec fn with_node(nodes: Map<i64, PolylinePoint>, element: OscElement) -> Map<i64, PolylinePoint> {
    if element.id is Some && element.place is Some { nodes.insert(element.id->0, element.place->0) } else { nodes }
}

/// The places of the first `n` nodes of a way that are known.
pub open spec fn known_places(nodes: Map<i64, PolylinePoint>, refs: Seq<i64>, n: int) -> Seq<PolylinePoint>
    decreases n,
{
    if n <= 0 {
        Seq::empty()
    } else {
        let before = known_places(nodes, refs, n - 1);
        if nodes.dom().contains(refs[n - 1]) { before.push(nodes[refs[n - 1]]) } else { before }
    }
}

/// How far a list of changes was read after something came; nothing where a way
/// without a number begins.
pub open spec fn read_after(view: OscView, event: OscEvent) -> Option<OscView> {
    match event {
        OscEvent::Start(element) => if element.name@ == "create"@ {
            Some(OscView { action: OscAction::Create, ..view })
        } else if element.name@ == "modify"@ {
            Some(OscView { action: OscAction::Modify, ..view })
        } else if element.name@ == "delete"@ {
            Some(OscView { action: OscAction::Delete, ..view })
        } else if element.name@ == "node"@ {
            Some(OscView { nodes: with_node(view.nodes, element), ..view })
        } else if element.name@ == "way"@ {
            match element.id {
                Some(way_id) => Some(
                    OscView {
                        current: Some(
                            WayChangeView { action: view.action, way_id: way_id, node_refs: Seq::empty(), coordinates: Seq::empty(), tags: Map::empty() },
                        ),
                        ..view
                    },
                ),
                None => None,
            }
        } else {
            Some(view)
        },
        OscEvent::Empty(element) => if element.name@ == "node"@ {
            Some(OscView { nodes: with_node(view.nodes, element), ..view })
        } else if view.current is Some && element.name@ == "nd"@ && element.reference is Some {
            let way = view.current->0;
            Some(OscView { current: Some(WayChangeView { node_refs: way.node_refs.push(element.reference->0), ..way }), ..view })
        } else if view.current is Some && element.name@ == "tag"@ && element.key is Some && element.value is Some {
            let way = view.current->0;
            Some(OscView { current: Some(WayChangeView { tags: way.tags.insert(element.key->0@, element.value->0), ..way }), ..view })
        } else {
            Some(view)
        },
        OscEvent::End(name) => if name@ == "way"@ && view.current is Some {
            let way = view.current->0;
            let placed = WayChangeView { coordinates: known_places(view.nodes, way.node_refs, way.node_refs.len() as int), ..way };
            Some(OscView { current: None, ways: view.ways.push(placed), ..view })
        } else {
            Some(view)
        },
    }
}

fn place_nodes(nodes: &HashMap<i64, PolylinePoint>, refs: &Vec<i64>) -> (places: Vec<PolylinePoint>)
    ensures
        places@ == known_places(nodes@, refs@, refs@.len() as int),
{
    let mut places: Vec<PolylinePoint> = Vec::new();
    let mut i: usize = 0;
    assert(places@ =~= Seq::<PolylinePoint>::empty());
    while i < refs.len()
        invariant
            i <= refs@.len(),
            places@ == known_places(nodes@, refs@, i as int),
        decreases refs.len() - i,
    {
        let node: i64 = refs[i];
        match nodes.get(&node) {
            Some(place) => {
                places.push(*place);
            },
            None => {},
        }
        i = i + 1;
    }
    places
}

impl OscReader {
    /// How far the list was read.
    pub closed spec fn view(&self) -> OscView {
        OscView {
            action: self.action,
            nodes: self.nodes@,
            current: match self.current {
                Some(way) => Some(way@),
                None => None,
            },
            ways: changes_view(self.ways@),
        }
    }

    /// Begins to read a list of changes.
    pub fn new() -> (reader: OscReader)
        ensures
            reader@ == (OscView { action: OscAction::Modify, nodes: Map::empty(), current: None, ways: Seq::empty() }),
    {
        let reader: OscReader = OscReader { action: OscAction::Modify, nodes: HashMap::new(), current: None, ways: Vec::new() };
        assert(reader@.nodes =~= Map::<i64, PolylinePoint>::empty());
        assert(reader@.ways =~= Seq::<WayChangeView>::empty());
        reader
    }

    fn note_node(&mut self, element: &OscElement)
        ensures
            final(self)@ == (OscView { nodes: with_node(old(self)@.nodes, *element), ..old(self)@ }),
    {
        match (element.id, element.place) {
            (Some(id), Some(place)) => {
                self.nodes.insert(id, place);
            },
            _ => {},
        }
    }

    /// Takes what comes next. A way without a number is refused.
    pub fn read(&mut self, event: OscEvent) -> (accepted: bool)
        ensures
            match read_after(old(self)@, event) {
                Some(view) => accepted && final(self)@ == view,
                None => !accepted,
            },
    {
        proof {
            reveal_strlit("nd");
            reveal_strlit("tag");
            assert("nd"@.len() != "tag"@.len());
        }
        match event {
            OscEvent::Start(element) => {
                let name: &str = element.name.as_str();
                if same_text(name, "create") {
                    self.action = OscAction::Create;
                } else if same_text(name, "modify") {
                    self.action = OscAction::Modify;
                } else if same_text(name, "delete") {
                    self.action = OscAction::Delete;
                } else if same_text(name, "node") {
                    self.note_node(&element);
                } else if same_text(name, "way") {
                    match element.id {
                        Some(way_id) => {
                            let way: OscWayChange = OscWayChange {
                                action: self.action,
                                way_id: way_id,
                                node_refs: Vec::new(),
                                coordinates: Vec::new(),
                                tags: Tags::new(),
                            };
                            assert(way@.node_refs =~= Seq::<i64>::empty());
                            assert(way@.coordinates =~= Seq::<PolylinePoint>::empty());
                            assert(way@.tags =~= Map::<Seq<char>, String>::empty());
                            self.current = Some(way);
                        },
                        None => {
                            return false;
                        },
                    }
                }
                true
            },
            OscEvent::Empty(element) => {
                if same_text(element.name.as_str(), "node") {
                    self.note_node(&element);
                } else if same_text(element.name.as_str(), "nd") {
                    let current: Option<OscWayChange> = self.current.take();
                    match current {
                        Some(way) => {
                            let mut way: OscWayChange = way;
                            match element.reference {
                                Some(node) => {
                                    way.node_refs.push(node);
                                },
                                None => {},
                            }
                            self.current = Some(way);
                        },
                        None => {},
                    }
                } else if same_text(element.name.as_str(), "tag") {
                    let current: Option<OscWayChange> = self.current.take();
                    match current {
                        Some(way) => {
                            let mut way: OscWayChange = way;
                            match (element.key, element.value) {
                                (Some(key), Some(value)) => {
                                    way.tags.insert(key, value);
                                },
                                _ => {},
                            }
                            self.current = Some(way);
                        },
                        None => {},
                    }
                }
                true
            },
            OscEvent::End(name) => {
                if same_text(name.as_str(), "way") {
                    let current: Option<OscWayChange> = self.current.take();
                    match current {
                        Some(way) => {
                            let mut way: OscWayChange = way;
                            way.coordinates = place_nodes(&self.nodes, &way.node_refs);
                            let ghost before = self.ways@;
                            let ghost placed = way@;
                            self.ways.push(way);
                            assert(changes_view(self.ways@) =~= changes_view(before).push(placed));
                        },
                        None => {},
                    }
                }
                true
            },
        }
    }

    /// The ways that have changed.
    pub fn finish(self) -> (ways: Vec<OscWayChange>)
        ensures
            changes_view(ways@) == self@.ways,
    {
        self.ways
    }
}

/// A way that takes the place of one of the map.
pub struct StreetOverlayWay {
    pub way_id: i64,
    pub name: Option<String>,
    pub node_refs: Vec<i64>,
    pub coordinates: Vec<PolylinePoint>,
    pub tags: Tags,
}

/// The key of a way.
pub open spec fn way_key(way_id: i64) -> StoreKey {
    if way_id >= 0 { (0i32, way_id as u64, 0u64) } else { (1i32, (-(way_id + 1)) as u64, 0u64) }
}

fn key_of_way(way_id: i64) -> (key: StoreKey)
    ensures
        key == way_key(way_id),
{
    if way_id >= 0 { (0, way_id as u64, 0) } else { (1, (-(way_id + 1)) as u64, 0) }
}

/// Ways have keys of their own.
pub proof fn way_keys_differ(a: i64, b: i64)
    requires
        way_key(a) == way_key(b),
    ensures
        a == b,
{
}

/// Changes to a network: the ways that no longer count as they were, and those
/// that take their places.
pub struct StreetOverlayDraft {
    pub blocked: KeyedStore<i64>,
    pub overrides: KeyedStore<StreetOverlayWay>,
}

/// What takes the place of a way, as plain values.
pub struct OverrideView {
    pub way_id: i64,
    pub name: Option<Seq<char>>,
    pub node_refs: Seq<i64>,
    pub coordinates: Seq<PolylinePoint>,
    pub tags: Map<Seq<char>, String>,
}

impl StreetOverlayWay {
    /// The way as plain values.
    pub open spec fn view(&self) -> OverrideView {
        OverrideView { way_id: self.way_id, name: text_view(self.name), node_refs: self.node_refs@, coordinates: self.coordinates@, tags: self.tags@ }
    }
}

/// Changes to a network, as plain values.
pub struct DraftView {
    pub blocked: Map<StoreKey, i64>,
    pub overrides: Map<StoreKey, OverrideView>,
}

/// What takes the place of ways, as plain values.
pub open spec fn overrides_view(overrides: Map<StoreKey, StreetOverlayWay>) -> Map<StoreKey, OverrideView> {
    Map::new(|key: StoreKey| overrides.dom().contains(key), |key: StoreKey| overrides[key]@)
}

/// Whether a changed way takes the place of the old one: it is not deleted, part
/// of the network, and has at least two nodes whose places are known.
pub open spec fn replaces(mode: StreetMode, change: WayChangeView) -> bool {
    change.action != OscAction::Delete && in_network(mode, change.tags) && change.coordinates.len() >= 2 && change.node_refs.len() >= 2
}

/// What changes to a network are after a way has changed.
pub open spec fn after_change(draft: DraftView, mode: StreetMode, change: WayChangeView) -> DraftView {
    let key = way_key(change.way_id);
    DraftView {
        blocked: draft.blocked.insert(key, change.way_id),
        overrides: if replaces(mode, change) {
            draft.overrides.insert(
                key,
                OverrideView {
                    way_id: change.way_id,
                    name: tagged_name(change.tags),
                    node_refs: change.node_refs,
                    coordinates: change.coordinates,
                    tags: change.tags,
                },
            )
        } else {
            draft.overrides.remove(key)
        },
    }
}

/// What changes to a network are after the first `n` ways have changed.
pub open spec fn after_changes(draft: DraftView, mode: StreetMode, changes: Seq<WayChangeView>, n: int) -> DraftView
    decreases n,
{
    if n <= 0 { draft } else { after_change(after_changes(draft, mode, changes, n - 1), mode, changes[n - 1]) }
}

impl StreetOverlayDraft {
    /// The changes as plain values.
    pub open spec fn view(&self) -> DraftView {
        DraftView { blocked: self.blocked@, overrides: overrides_view(self.overrides@) }
    }

    /// Whether the stores are in order.
    pub open spec fn wf(&self) -> bool {
        self.blocked.wf() && self.overrides.wf()
    }

    /// No changes.
    pub fn new() -> (draft: StreetOverlayDraft)
        ensures
            draft.wf(),
            draft@ == (DraftView { blocked: Map::empty(), overrides: Map::empty() }),
    {
        let draft: StreetOverlayDraft = StreetOverlayDraft { blocked: KeyedStore::new(), overrides: KeyedStore::new() };
        assert(draft@.overrides =~= Map::<StoreKey, OverrideView>::empty());
        draft
    }

    fn apply_change(&mut self, mode: StreetMode, change: OscWayChange)
        requires
            old(self).wf(),
        ensures
            final(self).wf(),
            final(self)@ == after_change(old(self)@, mode, change@),
    {
        let ghost before = *self;
        let ghost said = change@;
        let key: StoreKey = key_of_way(change.way_id);
        self.blocked.insert(key, change.way_id);
        let part: bool = matches_mode_way(mode, &change.tags);
        if change.action != OscAction::Delete && part && change.coordinates.len() >= 2 && change.node_refs.len() >= 2 {
            let name: Option<String> = way_name(&change.tags);
            let way: StreetOverlayWay = StreetOverlayWay {
                way_id: change.way_id,
                name: name,
                node_refs: change.node_refs,
                coordinates: change.coordinates,
                tags: change.tags,
            };
            let ghost shown = way@;
            self.overrides.insert(key, way);
            assert(self@.overrides =~= before@.overrides.insert(key, shown));
        } else {
            self.overrides.remove(key);
            assert(self@.overrides =~= before@.overrides.remove(key));
        }
        assert(self@.blocked =~= before@.blocked.insert(key, said.way_id));
    }

    /// Applies a list of changes, in order.
    pub fn apply_osc_diff(&mut self, mode: StreetMode, changes: Vec<OscWayChange>)
        requires
            old(self).wf(),
        ensures
            final(self).wf(),
            final(self)@ == after_changes(old(self)@, mode, changes_view(changes@), changes@.len() as int),
    {
        let ghost all = changes@;
        let ghost start = self@;
        let mut pending: Vec<OscWayChange> = Vec::new();
        let mut changes: Vec<OscWayChange> = changes;
        let ghost total = all.len() as int;
        assert(all.take(total) =~= all);
        while changes.len() > 0
            invariant
                total == all.len(),
                changes@.len() + pending@.len() == total,
                changes@ == all.take(changes@.len() as int),
                forall|i: int| 0 <= i < pending@.len() ==> #[trigger] pending@[i] == all[total - 1 - i],
            decreases changes@.len(),
        {
            let ghost left = changes@.len() as int;
            match changes.pop() {
                Some(change) => {
                    assert(change == all[left - 1]);
                    pending.push(change);
                },
                None => {},
            }
            assert(changes@ =~= all.take(left - 1));
        }
        while pending.len() > 0
            invariant
                total == all.len(),
                pending@.len() <= total,
                forall|i: int| 0 <= i < pending@.len() ==> #[trigger] pending@[i] == all[total - 1 - i],
                self.wf(),
                self@ == after_changes(start, mode, changes_view(all), total - pending@.len()),
            decreases pending@.len(),
        {
            let ghost n = total - pending@.len();
            match pending.pop() {
                Some(change) => {
                    assert(change == all[n]);
                    assert(changes_view(all)[n] == change@);
                    self.apply_change(mode, change);
                },
                None => {},
            }
        }
    }
}

/// A way that has changed counts no longer as it was in the map.
pub proof fn changed_ways_are_blocked(draft: DraftView, mode: StreetMode, changes: Seq<WayChangeView>, n: int, i: int)
    requires
        0 <= i < n <= changes.len(),
    ensures
        after_changes(draft, mode, changes, n).blocked.dom().contains(way_key(changes[i].way_id)),
    decreases n,
{
    if i < n - 1 {
        changed_ways_are_blocked(draft, mode, changes, n - 1, i);
    }
}

/// How the changes to a network stand.
#[derive(Clone, Debug)]
pub struct StreetOverlaySnapshot {
    pub mode: &'static str,
    pub enabled: bool,
    pub state_url: Option<String>,
    pub diff_base_url: Option<String>,
    pub poll_interval_secs: Option<u64>,
    pub base_sequence: Option<u64>,
    pub base_timestamp: Option<String>,
    pub applied_sequence: Option<u64>,
    pub applied_timestamp: Option<String>,
    pub last_poll_timestamp: Option<String>,
    pub overlay_nodes: usize,
    pub overlay_edges: usize,
    pub blocked_way_ids: usize,
    pub way_overrides: usize,
    pub last_error: Option<String>,
}

/// How the changes to both networks stand.
#[derive(Clone, Debug)]
pub struct StreetRouterOverlaySnapshot {
    pub walk: StreetOverlaySnapshot,
    pub drive: StreetOverlaySnapshot,
}

/// When changes were last looked for and applied.
#[derive(Clone, Debug)]
pub struct OverlayProgress {
    pub applied_sequence: Option<u64>,
    pub applied_timestamp: Option<String>,
    pub last_poll_timestamp: Option<String>,
    pub last_error: Option<String>,
}

/// Whether progress says what other progress says.
pub open spec fn says_progress(progress: OverlayProgress, sequence: Option<u64>, timestamp: Option<Seq<char>>, polled: Option<Seq<char>>, error: Option<Seq<char>>) -> bool {
    &&& progress.applied_sequence == sequence
    &&& text_view(progress.applied_timestamp) == timestamp
    &&& text_view(progress.last_poll_timestamp) == polled
    &&& text_view(progress.last_error) == error
}

/// How the changes stand after they were looked for, and whether that is to be kept:
/// if any were applied, or nothing was kept before. A time that was known stays where
/// nothing was applied.
pub fn progress_after_poll(progress: &OverlayProgress, plan: PollPlan, remote: &RemoteStateFile, polled: &str) -> (result: (OverlayProgress, bool))
    ensures
        match plan {
            PollPlan::UpToDate { applied } => {
                let timestamp = if progress.applied_timestamp is Some { text_view(progress.applied_timestamp) } else { text_view(remote.timestamp) };
                &&& says_progress(result.0, Some(applied), timestamp, Some(polled@), None)
                &&& result.1 == (progress.applied_sequence is None)
            },
            PollPlan::Apply { last, .. } => says_progress(result.0, Some(last), text_view(remote.timestamp), Some(polled@), None) && result.1,
        },
{
    match plan {
        PollPlan::UpToDate { applied } => {
            let timestamp: Option<String> = if progress.applied_timestamp.is_some() { copy_text(&progress.applied_timestamp) } else { copy_text(&remote.timestamp) };
            (
                OverlayProgress { applied_sequence: Some(applied), applied_timestamp: timestamp, last_poll_timestamp: Some(polled.to_owned()), last_error: None },
                progress.applied_sequence.is_none(),
            )
        },
        PollPlan::Apply { last, .. } => (
            OverlayProgress {
                applied_sequence: Some(last),
                applied_timestamp: copy_text(&remote.timestamp),
                last_poll_timestamp: Some(polled.to_owned()),
                last_error: None,
            },
            true,
        ),
    }
}

/// How the changes stand after it was found that they are looked for elsewhere than
/// where the map was taken from.
pub fn progress_after_mismatch(progress: &OverlayProgress, expected_base_url: &str, state_url: &str, polled: &str) -> (result: OverlayProgress)
    ensures
        says_progress(
            result,
            progress.applied_sequence,
            text_view(progress.applied_timestamp),
            Some(polled@),
            Some("street diff base URL mismatch: PBF header expects "@ + expected_base_url@ + ", config points to "@ + state_url@),
        ),
{
    let mut error: String = joined("street diff base URL mismatch: PBF header expects ", expected_base_url);
    error.append(", config points to ");
    error.append(state_url);
    OverlayProgress {
        applied_sequence: progress.applied_sequence,
        applied_timestamp: copy_text(&progress.applied_timestamp),
        last_poll_timestamp: Some(polled.to_owned()),
        last_error: Some(error),
    }
}

/// Whether an address is as it is configured, if it is.
pub open spec fn configured_base(config: Option<OsmDiffConfig>) -> Option<Seq<char>> {
    match config {
        Some(diff) => Some(
            base_of(
                match diff.diff_base_url {
                    Some(url) => url@,
                    None => diff.state_url@,
                },
            ),
        ),
        None => None,
    }
}

/// Tells how the changes to a network stand.
pub fn overlay_snapshot(
    mode: StreetMode,
    config: &Option<OsmDiffConfig>,
    base_sequence: Option<u64>,
    base_timestamp: &Option<String>,
    progress: &OverlayProgress,
    draft: &StreetOverlayDraft,
    overlay_nodes: usize,
    overlay_edges: usize,
) -> (snapshot: StreetOverlaySnapshot)
    requires
        draft.wf(),
    ensures
        snapshot.enabled == (*config is Some),
        text_view(snapshot.state_url) == match *config {
            Some(diff) => Some(diff.state_url@),
            None => None,
        },
        text_view(snapshot.diff_base_url) == configured_base(*config),
        snapshot.poll_interval_secs == match *config {
            Some(diff) => Some(diff.poll_interval_secs),
            None => None,
        },
        snapshot.base_sequence == base_sequence,
        text_view(snapshot.base_timestamp) == text_view(*base_timestamp),
        snapshot.applied_sequence == progress.applied_sequence,
        text_view(snapshot.applied_timestamp) == text_view(progress.applied_timestamp),
        text_view(snapshot.last_poll_timestamp) == text_view(progress.last_poll_timestamp),
        text_view(snapshot.last_error) == text_view(progress.last_error),
        snapshot.overlay_nodes == overlay_nodes,
        snapshot.overlay_edges == overlay_edges,
        snapshot.blocked_way_ids == draft@.blocked.dom().len(),
        snapshot.way_overrides == draft.overrides@.dom().len(),
        snapshot.mode@ == match mode {
            StreetMode::Walk => "walk"@,
            StreetMode::Drive => "drive"@,
        },
{
    let (state_url, diff_base_url, poll_interval_secs) = match config {
        Some(diff) => (Some(diff.state_url.clone()), Some(resolved_diff_base_url(diff)), Some(diff.poll_interval_secs)),
        None => (None, None, None),
    };
    StreetOverlaySnapshot {
        mode: mode.as_str(),
        enabled: config.is_some(),
        state_url: state_url,
        diff_base_url: diff_base_url,
        poll_interval_secs: poll_interval_secs,
        base_sequence: base_sequence,
        base_timestamp: copy_text(base_timestamp),
        applied_sequence: progress.applied_sequence,
        applied_timestamp: copy_text(&progress.applied_timestamp),
        last_poll_timestamp: copy_text(&progress.last_poll_timestamp),
        overlay_nodes: overlay_nodes,
        overlay_edges: overlay_edges,
        blocked_way_ids: draft.blocked.len(),
        way_overrides: draft.overrides.len(),
        last_error: copy_text(&progress.last_error),
    }
}

} // verus!
