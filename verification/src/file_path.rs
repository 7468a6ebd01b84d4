//! Paths of files, taken apart: what crash collection and reports read of them.

use crate::order;
use crate::order::Relation;
use crate::text;
use crate::text::{
    chars_of, ends_with, forward_slashes, padded_decimal_text, part_at, starts_with, utf8_text,
};
use vstd::prelude::*;

verus! {

/// One component of a path. Names are the bytes that the platform encodes
/// them in, a superset of UTF-8.
#[derive(Debug, PartialEq, Eq, Hash)]
pub enum PathPart {
    /// A platform prefix such as a drive, in a form that is equal for equal
    /// prefixes.
    Prefix(Vec<u8>),
    /// The root directory.
    RootDir,
    /// A leading `.`.
    CurDir,
    /// A `..`.
    ParentDir,
    /// A name.
    Normal(Vec<u8>),
}

/// A component of a path, with its bytes as a sequence.
pub enum PathPartView {
    Prefix(Seq<u8>),
    RootDir,
    CurDir,
    ParentDir,
    Normal(Seq<u8>),
}

impl View for PathPart {
    type V = PathPartView;

    open spec fn view(&self) -> PathPartView {
        match *self {
            PathPart::Prefix(bytes) => PathPartView::Prefix(bytes@),
            PathPart::RootDir => PathPartView::RootDir,
            PathPart::CurDir => PathPartView::CurDir,
            PathPart::ParentDir => PathPartView::ParentDir,
            PathPart::Normal(bytes) => PathPartView::Normal(bytes@),
        }
    }
}

/// `c` separates components on some platform.
pub open spec fn is_separator(c: char) -> bool {
    c == '/' || c == '\\'
}

/// In the text from `from` up to `to`, the character at `i` is a separator, or
/// a `.` that stands alone: behind a separator, and before one or at the end.
pub open spec fn is_gap_at(text: Seq<char>, from: int, to: int, i: int) -> bool {
    ||| is_separator(text[i])
    ||| {
        &&& text[i] == '.'
        &&& from < i
        &&& is_separator(text[i - 1])
        &&& i + 1 == text.len() || i + 1 < to && is_separator(text[i + 1])
    }
}

/// The text from `from` up to `to` names no component: it is made of separators
/// and of lone `.`.
pub open spec fn is_gap(text: Seq<char>, from: int, to: int) -> bool {
    forall|i: int| from <= i < to ==> #[trigger] is_gap_at(text, from, to, i)
}

impl PathPartView {
    /// How the component is written, where its kind or its name tells.
    pub open spec fn spelling(self) -> Option<Seq<char>> {
        match self {
            PathPartView::CurDir => Some("."@),
            PathPartView::ParentDir => Some(".."@),
            PathPartView::Normal(bytes) => if vstd::utf8::valid_utf8(bytes) {
                Some(vstd::utf8::decode_utf8(bytes))
            } else {
                None
            },
            _ => None,
        }
    }

    /// `text` is the component with `rest` behind it. Between the two stands
    /// what separates components; behind the last component stands nothing. The
    /// root is written as a separator, or not at all where a prefix implies it.
    /// How a prefix or a name outside UTF-8 is written is left open.
    pub open spec fn leads(self, text: Seq<char>, rest: Seq<char>, last: bool) -> bool {
        let end = text.len() - rest.len();
        &&& text::finishes_with(text, rest)
        &&& match self {
            PathPartView::Prefix(_) => true,
            PathPartView::RootDir => text.len() > 0 ==> {
                &&& end > 0
                &&& is_gap(text, 0, end)
                &&& last ==> end == 1
            },
            _ => match self.spelling() {
                Some(name) => {
                    &&& name.len() <= end
                    &&& text::begins_with(text, name)
                    &&& is_gap(text, name.len() as int, end)
                    &&& last <==> name.len() == end
                },
                None => end > 0,
            },
        }
    }

    /// Where the kind of the component stands in the order of components.
    pub open spec fn rank(self) -> int {
        match self {
            PathPartView::Prefix(_) => 0,
            PathPartView::RootDir => 1,
            PathPartView::CurDir => 2,
            PathPartView::ParentDir => 3,
            PathPartView::Normal(_) => 4,
        }
    }

    /// A name is not empty and holds no `/`, which separates components.
    pub open spec fn valid(self) -> bool {
        self matches PathPartView::Normal(bytes) ==> bytes.len() > 0 && forall|i: int|
            0 <= i < bytes.len() ==> #[trigger] bytes[i] != 47
    }

    /// The bytes of the component, if its kind has any.
    pub open spec fn bytes(self) -> Seq<u8> {
        match self {
            PathPartView::Prefix(bytes) => bytes,
            PathPartView::Normal(bytes) => bytes,
            _ => Seq::empty(),
        }
    }
}

impl PathPart {
    /// Whether the component is valid: whether a name is not empty and holds
    /// no `/`.
    pub fn is_valid(&self) -> (valid: bool)
        ensures
            valid == self@.valid(),
    {
        match self {
            PathPart::Normal(bytes) => {
                let mut i: usize = 0;
                while i < bytes.len()
                    invariant
                        i <= bytes@.len(),
                        self@ == PathPartView::Normal(bytes@),
                        forall|j: int| 0 <= j < i ==> #[trigger] bytes@[j] != 47,
                    decreases bytes@.len() - i,
                {
                    if bytes[i] == 47 {
                        return false;
                    }
                    i = i + 1;
                }
                bytes.len() > 0
            },
            _ => true,
        }
    }
}

impl Clone for PathPart {
    fn clone(&self) -> (copy: PathPart)
        ensures
            copy@ == self@,
    {
        match self {
            PathPart::Prefix(bytes) => PathPart::Prefix(bytes.clone()),
            PathPart::RootDir => PathPart::RootDir,
            PathPart::CurDir => PathPart::CurDir,
            PathPart::ParentDir => PathPart::ParentDir,
            PathPart::Normal(bytes) => PathPart::Normal(bytes.clone()),
        }
    }
}

fn holds_gap(text: &Vec<char>, from: usize, to: usize) -> (yes: bool)
    requires
        to <= text@.len(),
    ensures
        yes == is_gap(text@, from as int, to as int),
{
    let mut i: usize = from;
    while i < to
        invariant
            from <= i,
            to <= text@.len(),
            forall|j: int|
                from <= j < i && j < to ==> #[trigger] is_gap_at(text@, from as int, to as int, j),
        decreases to - i,
    {
        let separator = text[i] == '/' || text[i] == '\\';
        let lone_dot = text[i] == '.' && from < i && (text[i - 1] == '/' || text[i - 1] == '\\')
            && (i + 1 == text.len() || i + 1 < to && (text[i + 1] == '/' || text[i + 1] == '\\'));
        if !separator && !lone_dot {
            assert(!is_gap_at(text@, from as int, to as int, i as int));
            return false;
        }
        i = i + 1;
    }
    true
}

impl PathPart {
    fn spelling(&self) -> (name: Option<Vec<char>>)
        ensures
            name is Some <==> self@.spelling() is Some,
            name matches Some(chars) ==> self@.spelling() == Some(chars@),
    {
        match self {
            PathPart::CurDir => Some(chars_of(".")),
            PathPart::ParentDir => Some(chars_of("..")),
            PathPart::Normal(bytes) => match utf8_text(bytes.as_slice()) {
                Some(name) => Some(chars_of(name)),
                None => None,
            },
            _ => None,
        }
    }

    fn leads(&self, text: &str, rest: &str, last: bool) -> (yes: bool)
        ensures
            yes == self@.leads(text@, rest@, last),
    {
        let chars = chars_of(text);
        if !ends_with(&chars, rest) {
            return false;
        }
        let end = chars.len() - chars_of(rest).len();
        match self {
            PathPart::Prefix(_) => true,
            PathPart::RootDir => chars.len() == 0 || end > 0 && holds_gap(&chars, 0, end) && (!last
                || end == 1),
            _ => match self.spelling() {
                Some(name) => name.len() <= end && part_at(&chars, &name, 0) && holds_gap(
                    &chars,
                    name.len(),
                    end,
                ) && last == (name.len() == end),
                None => end > 0,
            },
        }
    }
}

/// A path: its text, its components, and the text that is left of it after
/// each number of components. Text that is not valid UTF-8 on the platform
/// stands there with replacement characters.
#[derive(Debug, PartialEq, Eq, Hash)]
pub struct FilePath {
    text: String,
    parts: Vec<PathPart>,
    rests: Vec<String>,
}

/// A path, with its text and its components as sequences.
pub struct FilePathView {
    pub text: Seq<char>,
    pub parts: Seq<PathPartView>,
    pub rests: Seq<Seq<char>>,
}

impl View for FilePath {
    type V = FilePathView;

    closed spec fn view(&self) -> FilePathView {
        FilePathView {
            text: self.text@,
            parts: self.parts@.map_values(|part: PathPart| part@),
            rests: self.rests@.map_values(|rest: String| rest@),
        }
    }
}

impl Clone for FilePath {
    fn clone(&self) -> (copy: FilePath)
        ensures
            copy@ == self@,
    {
        proof {
            use_type_invariant(self);
        }
        let mut parts: Vec<PathPart> = Vec::new();
        let mut i: usize = 0;
        while i < self.parts.len()
            invariant
                i <= self.parts@.len(),
                parts@.len() == i,
                forall|j: int| 0 <= j < i ==> (#[trigger] parts@[j])@ == self.parts@[j]@,
            decreases self.parts@.len() - i,
        {
            parts.push(self.parts[i].clone());
            i = i + 1;
        }
        let rests = self.rests.clone();
        assert(parts@.map_values(|part: PathPart| part@) =~= self@.parts);
        assert(rests@.map_values(|rest: String| rest@) =~= self@.rests);
        FilePath { text: self.text.clone(), parts, rests }
    }
}

/// The order of bytes.
pub open spec fn byte_less() -> spec_fn(u8, u8) -> bool {
    |x: u8, y: u8| x < y
}

/// Components are ordered by their kind, then by their bytes.
pub open spec fn part_less() -> spec_fn(PathPartView, PathPartView) -> bool {
    |x: PathPartView, y: PathPartView|
        x.rank() < y.rank() || x.rank() == y.rank() && order::lex_less(
            x.bytes(),
            y.bytes(),
            byte_less(),
        )
}

/// Paths are ordered component by component.
pub open spec fn path_less(a: FilePathView, b: FilePathView) -> bool {
    order::lex_less(a.parts, b.parts, part_less())
}

impl FilePathView {
    /// What is left after `k` components is the next one with what is left
    /// after that behind it.
    pub open spec fn leads_at(self, k: int) -> bool {
        self.parts[k].leads(self.rests[k], self.rests[k + 1], k + 1 == self.parts.len())
    }

    /// Where, in the text, what follows the last component starts. A root that
    /// stands last is its own separator.
    pub open spec fn trailer(self) -> int {
        let whole = self.rests[0];
        if self.parts.last() is RootDir && whole.len() > 0 && is_separator(whole.last()) {
            whole.len() - 1
        } else {
            whole.len() as int
        }
    }

    /// There is a rest for each number of components, each leads to the next by
    /// its component, and nothing is left after the last one. The text is the
    /// first rest, with nothing behind it that names a component.
    pub open spec fn valid(self) -> bool {
        &&& self.rests.len() == self.parts.len() + 1
        &&& self.rests.last().len() == 0
        &&& forall|i: int| 0 <= i < self.parts.len() ==> (#[trigger] self.parts[i]).valid()
        &&& forall|k: int| 0 <= k < self.parts.len() ==> #[trigger] self.leads_at(k)
        &&& text::begins_with(self.text, self.rests[0])
        &&& if self.parts.len() == 0 {
            self.text.len() == 0
        } else {
            is_gap(self.text, self.trailer(), self.text.len() as int)
        }
    }

    /// The path lies below `base`, or is `base`.
    pub open spec fn starts_with(self, base: FilePathView) -> bool {
        base.parts.len() <= self.parts.len() && self.parts.take(base.parts.len() as int)
            == base.parts
    }

    /// The last component as text, if it is a name in UTF-8.
    pub open spec fn file_name(self) -> Option<Seq<char>> {
        if self.parts.len() == 0 {
            None
        } else {
            match self.parts.last() {
                PathPartView::Normal(bytes) => if vstd::utf8::valid_utf8(bytes) {
                    Some(vstd::utf8::decode_utf8(bytes))
                } else {
                    None
                },
                _ => None,
            }
        }
    }

    /// What is left of the path below `base`, or all of it where it does not
    /// lie there; with forward slashes.
    pub open spec fn relative_to(self, base: FilePathView) -> Seq<char> {
        text::forward_slashed(
            if self.starts_with(base) {
                self.rests[base.parts.len() as int]
            } else {
                self.text
            },
        )
    }

    /// The path names a crash input: neither a hidden file nor metadata.
    pub open spec fn is_crash_input(self) -> bool {
        self.file_name() matches Some(name) && !text::begins_with(name, "."@)
            && !text::finishes_with(name, ".metadata"@)
    }

    /// The file name for the representative of the cluster at `index`.
    pub open spec fn unique_name(self, index: nat) -> Seq<char> {
        text::zero_padded(text::decimal(index)) + "_"@ + match self.file_name() {
            Some(name) => name,
            None => "crash"@,
        }
    }
}

impl FilePath {
    #[verifier::type_invariant]
    closed spec fn well_formed(self) -> bool {
        self@.valid()
    }

    /// A path with the given text and components; `rests[k]` is the text that
    /// is left after `k` components. Returns nothing when these do not make a
    /// valid path.
    pub fn new(text: String, parts: Vec<PathPart>, rests: Vec<String>) -> (path: Option<FilePath>)
        ensures
            ({
                let view = FilePathView {
                    text: text@,
                    parts: parts@.map_values(|part: PathPart| part@),
                    rests: rests@.map_values(|rest: String| rest@),
                };
                &&& path is Some <==> view.valid()
                &&& path matches Some(made) ==> made@ == view
            }),
    {
        let ghost view = FilePathView {
            text: text@,
            parts: parts@.map_values(|part: PathPart| part@),
            rests: rests@.map_values(|rest: String| rest@),
        };
        if rests.len() == 0 || rests.len() - 1 != parts.len() {
            return None;
        }
        assert(view.rests.last() == rests@[rests@.len() - 1]@);
        if !rests[rests.len() - 1].as_str().is_empty() {
            return None;
        }
        let mut i: usize = 0;
        while i < parts.len()
            invariant
                i <= parts@.len(),
                rests@.len() == parts@.len() + 1,
                view.text == text@,
                view.parts == parts@.map_values(|part: PathPart| part@),
                view.rests == rests@.map_values(|rest: String| rest@),
                forall|j: int| 0 <= j < i ==> (#[trigger] view.parts[j]).valid(),
                forall|k: int| 0 <= k < i ==> #[trigger] view.leads_at(k),
            decreases parts@.len() - i,
        {
            assert(view.parts[i as int] == parts@[i as int]@);
            assert(view.rests[i as int] == rests@[i as int]@);
            assert(view.rests[i + 1] == rests@[i + 1]@);
            if !parts[i].is_valid() {
                return None;
            }
            if !parts[i].leads(rests[i].as_str(), rests[i + 1].as_str(), i + 1 == parts.len()) {
                assert(!view.leads_at(i as int));
                return None;
            }
            i = i + 1;
        }
        let chars = chars_of(text.as_str());
        let whole = chars_of(rests[0].as_str());
        assert(view.rests[0] == whole@);
        if !part_at(&chars, &whole, 0) {
            return None;
        }
        if parts.len() == 0 {
            if chars.len() > 0 {
                return None;
            }
        } else {
            assert(view.parts.last() == parts@[parts@.len() - 1]@);
            let count = whole.len();
            let ends_in_root = match &parts[parts.len() - 1] {
                PathPart::RootDir => count > 0 && (whole[count - 1] == '/' || whole[count - 1]
                    == '\\'),
                _ => false,
            };
            let trailer: usize = if ends_in_root {
                count - 1
            } else {
                count
            };
            if !holds_gap(&chars, trailer, chars.len()) {
                return None;
            }
        }
        Some(FilePath { text, parts, rests })
    }

    /// The text of the path.
    pub fn text(&self) -> (text: &str)
        ensures
            text@ == self@.text,
    {
        self.text.as_str()
    }

    /// Whether the path lies below `base`, or is `base`.
    pub fn starts_with(&self, base: &FilePath) -> (yes: bool)
        ensures
            yes == self@.starts_with(base@),
    {
        if self.parts.len() < base.parts.len() {
            return false;
        }
        let mut i: usize = 0;
        while i < base.parts.len()
            invariant
                i <= base.parts@.len() <= self.parts@.len(),
                forall|j: int| 0 <= j < i ==> self@.parts[j] == #[trigger] base@.parts[j],
            decreases base.parts@.len() - i,
        {
            match relate_parts(&self.parts[i], &base.parts[i]) {
                Relation::Equal => {},
                _ => {
                    assert(self@.parts.take(base@.parts.len() as int)[i as int]
                        != base@.parts[i as int]);
                    return false;
                },
            }
            i = i + 1;
        }
        assert(self@.parts.take(base@.parts.len() as int) =~= base@.parts);
        true
    }

    /// The last component as text, if it is a name in UTF-8.
    pub fn file_name(&self) -> (name: Option<String>)
        ensures
            crate::crash_identity::text_option(name) == self@.file_name(),
    {
        let count = self.parts.len();
        if count == 0 {
            return None;
        }
        assert(self@.parts.last() == self.parts@[count - 1]@);
        match &self.parts[count - 1] {
            PathPart::Normal(bytes) => match utf8_text(bytes.as_slice()) {
                Some(name) => Some(name.to_owned()),
                None => None,
            },
            _ => None,
        }
    }
}

/// `s` holds no `/`.
pub open spec fn slash_free(s: Seq<char>) -> bool {
    forall|i: int| 0 <= i < s.len() ==> #[trigger] s[i] != '/'
}

proof fn lemma_decoded_slash_free(bytes: Seq<u8>)
    requires
        vstd::utf8::valid_utf8(bytes),
        forall|i: int| 0 <= i < bytes.len() ==> #[trigger] bytes[i] != 47,
    ensures
        slash_free(vstd::utf8::decode_utf8(bytes)),
    decreases bytes.len(),
{
    if bytes.len() > 0 {
        let rest = vstd::utf8::pop_first_scalar(bytes);
        let first = vstd::utf8::decode_first_scalar(bytes) as char;
        assert forall|i: int| 0 <= i < rest.len() implies #[trigger] rest[i] != 47 by {
            assert(rest[i] == bytes[i + vstd::utf8::length_of_first_scalar(bytes)]);
        }
        lemma_decoded_slash_free(rest);
        if first == '/' {
            vstd::utf8::decode_utf8_first_scalar(bytes);
            assert(47u32 & 0x7f == 47) by (bit_vector);
            assert(vstd::utf8::encode_scalar(47)[0] == 47);
            assert(vstd::utf8::take_first_scalar(bytes)[0] == bytes[0]);
        }
    }
}

proof fn lemma_file_name_slash_free(path: FilePathView)
    requires
        path.valid(),
    ensures
        path.file_name() matches Some(name) ==> slash_free(name),
{
    if path.file_name() is Some {
        let part = path.parts[path.parts.len() - 1];
        assert(part.valid());
        lemma_decoded_slash_free(part->Normal_0);
    }
}

/// Nothing is left of a path below itself.
pub proof fn law_nothing_is_left_below_itself(path: FilePathView, base: FilePathView)
    requires
        path.valid(),
        path.parts == base.parts,
    ensures
        path.relative_to(base).len() == 0,
{
    assert(path.parts.take(path.parts.len() as int) =~= path.parts);
}

/// `text` is the first of the components `parts` with `rest` behind it.
pub open spec fn starts_off(text: Seq<char>, parts: Seq<PathPartView>, rest: Seq<char>) -> bool {
    parts[0].leads(text, rest, parts.len() == 1)
}

/// `text` is written out of the components `parts`, one behind the other.
pub open spec fn spells(text: Seq<char>, parts: Seq<PathPartView>) -> bool
    decreases parts.len(),
{
    if parts.len() == 0 {
        text.len() == 0
    } else {
        exists|rest: Seq<char>| #[trigger]
            starts_off(text, parts, rest) && spells(rest, parts.drop_first())
    }
}

/// What is left of a path after `k` components is written out of the
/// components that follow.
pub proof fn law_rests_spell_the_remaining_components(path: FilePathView, k: int)
    requires
        path.valid(),
        0 <= k <= path.parts.len(),
    ensures
        spells(path.rests[k], path.parts.skip(k)),
    decreases path.parts.len() - k,
{
    let parts = path.parts.skip(k);
    if k < path.parts.len() {
        law_rests_spell_the_remaining_components(path, k + 1);
        assert(path.leads_at(k));
        assert(parts[0] == path.parts[k]);
        assert(parts.drop_first() =~= path.parts.skip(k + 1));
        assert(starts_off(path.rests[k], parts, path.rests[k + 1]));
    }
}

/// What is left of a file below the directory that it lies in is its file name.
pub proof fn law_file_name_is_left_below_the_directory(path: FilePathView, directory: FilePathView)
    requires
        path.valid(),
        path.file_name() is Some,
        directory.parts == path.parts.drop_last(),
    ensures
        path.relative_to(directory) == text::forward_slashed(path.file_name()->0),
{
    let k = path.parts.len() - 1;
    assert(path.leads_at(k));
    assert(path.parts.take(k) =~= path.parts.drop_last());
    assert(path.rests[k] =~= path.rests[k].subrange(0, path.file_name()->0.len() as int));
}

/// The file name of a copy holds no separator, so it is a single component.
pub proof fn law_unique_names_hold_no_separator(path: FilePathView, index: nat)
    requires
        path.valid(),
    ensures
        slash_free(path.unique_name(index)),
{
    reveal_strlit("_");
    reveal_strlit("crash");
    let numeral = text::zero_padded(text::decimal(index));
    text::lemma_padded_digits(index);
    lemma_file_name_slash_free(path);
    assert forall|i: int| 0 <= i < path.unique_name(index).len() implies #[trigger]
        path.unique_name(index)[i] != '/' by {
        if i < numeral.len() {
            assert(path.unique_name(index)[i] == numeral[i]);
        }
    }
}

/// What is left of `path` below `base`, or all of it where it does not lie
/// there; with forward slashes.
pub fn relative_string(base: &FilePath, path: &FilePath) -> (text: String)
    ensures
        text@ == path@.relative_to(base@),
        path@.valid(),
        path@.starts_with(base@) ==> spells(
            path@.rests[base@.parts.len() as int],
            path@.parts.skip(base@.parts.len() as int),
        ),
        path@.parts == base@.parts ==> text@.len() == 0,
{
    proof {
        use_type_invariant(path);
        if path@.starts_with(base@) {
            law_rests_spell_the_remaining_components(path@, base@.parts.len() as int);
        }
        if path@.parts == base@.parts {
            law_nothing_is_left_below_itself(path@, base@);
        }
    }
    if path.starts_with(base) {
        let count = base.parts.len();
        assert(path@.rests[count as int] == path.rests@[count as int]@);
        forward_slashes(path.rests[count].as_str())
    } else {
        forward_slashes(path.text.as_str())
    }
}

/// Whether `path` names a crash input: neither a hidden file nor metadata.
pub fn is_crash_input_file(path: &FilePath) -> (yes: bool)
    ensures
        yes == path@.is_crash_input(),
{
    match path.file_name() {
        Some(name) => {
            let name = chars_of(&name);
            !starts_with(&name, ".") && !ends_with(&name, ".metadata")
        },
        None => false,
    }
}

/// The file name for the representative of the cluster at `index`.
pub fn unique_file_name(index: usize, source_path: &FilePath) -> (name: String)
    ensures
        name@ == source_path@.unique_name(index as nat),
        slash_free(name@),
{
    proof {
        use_type_invariant(source_path);
        law_unique_names_hold_no_separator(source_path@, index as nat);
    }
    let mut name = padded_decimal_text(index as u64);
    name.append("_");
    match source_path.file_name() {
        Some(file_name) => name.append(&file_name),
        None => name.append("crash"),
    }
    name
}

fn relate_bytes(x: &Vec<u8>, y: &Vec<u8>) -> (relation: Relation)
    ensures
        relation == (if x@ == y@ {
            Relation::Equal
        } else if order::lex_less(x@, y@, byte_less()) {
            Relation::Less
        } else {
            Relation::Greater
        }),
{
    let mut i: usize = 0;
    while i < x.len() && i < y.len() && x[i] == y[i]
        invariant
            i <= x@.len(),
            i <= y@.len(),
            x@.take(i as int) == y@.take(i as int),
        decreases x@.len() - i,
    {
        i = i + 1;
        assert(x@.take(i as int) =~= x@.take(i - 1).push(x@[i - 1]));
        assert(y@.take(i as int) =~= y@.take(i - 1).push(y@[i - 1]));
    }
    assert(x@.take(x@.len() as int) =~= x@);
    assert(y@.take(y@.len() as int) =~= y@);
    if i == x.len() && i == y.len() {
        Relation::Equal
    } else if i == x.len() || i < y.len() && x[i] < y[i] {
        assert(order::less_at(x@, y@, byte_less(), i as int));
        Relation::Less
    } else {
        assert(order::less_at(y@, x@, byte_less(), i as int));
        proof {
            order::lemma_lex_irreflexive(x@, byte_less());
            if order::lex_less(x@, y@, byte_less()) {
                order::lemma_lex_transitive(x@, y@, x@, byte_less());
            }
        }
        Relation::Greater
    }
}

fn part_rank(part: &PathPart) -> (rank: u8)
    ensures
        rank == part@.rank(),
{
    match part {
        PathPart::Prefix(_) => 0,
        PathPart::RootDir => 1,
        PathPart::CurDir => 2,
        PathPart::ParentDir => 3,
        PathPart::Normal(_) => 4,
    }
}

fn relate_parts(x: &PathPart, y: &PathPart) -> (relation: Relation)
    ensures
        relation == (if x@ == y@ {
            Relation::Equal
        } else if part_less()(x@, y@) {
            Relation::Less
        } else {
            Relation::Greater
        }),
{
    proof {
        order::lemma_lex_irreflexive(Seq::<u8>::empty(), byte_less());
    }
    match (x, y) {
        (PathPart::Prefix(a), PathPart::Prefix(b)) => relate_bytes(a, b),
        (PathPart::Normal(a), PathPart::Normal(b)) => relate_bytes(a, b),
        _ => {
            let a = part_rank(x);
            let b = part_rank(y);
            if a < b {
                Relation::Less
            } else if a > b {
                Relation::Greater
            } else {
                Relation::Equal
            }
        },
    }
}

/// The order of components is a strict total order.
pub proof fn lemma_part_less_total()
    ensures
        order::strict_total(part_less()),
{
    let lt = part_less();
    assert forall|x: PathPartView| !#[trigger] lt(x, x) by {
        order::lemma_lex_irreflexive(x.bytes(), byte_less());
    }
    assert forall|x: PathPartView, y: PathPartView, z: PathPartView| #[trigger]
        lt(x, y) && #[trigger] lt(y, z) implies lt(x, z) by {
        if x.rank() == y.rank() && y.rank() == z.rank() {
            order::lemma_lex_transitive(x.bytes(), y.bytes(), z.bytes(), byte_less());
        }
    }
    assert forall|x: PathPartView, y: PathPartView| #[trigger]
        lt(x, y) || x == y || lt(y, x) by {
        order::lemma_lex_total(x.bytes(), y.bytes(), byte_less());
    }
}

/// Of two paths with different components one comes before the other, and none
/// comes before itself.
pub proof fn lemma_path_less_total(a: FilePathView, b: FilePathView)
    ensures
        !path_less(a, a),
        path_less(a, b) || a.parts == b.parts || path_less(b, a),
{
    lemma_part_less_total();
    order::lemma_lex_irreflexive(a.parts, part_less());
    order::lemma_lex_total(a.parts, b.parts, part_less());
}

/// Of two paths at most one comes before the other.
pub proof fn lemma_path_less_asymmetric(a: FilePathView, b: FilePathView)
    requires
        path_less(a, b),
    ensures
        a.parts != b.parts,
        !path_less(b, a),
{
    lemma_part_less_total();
    order::lemma_lex_irreflexive(a.parts, part_less());
    if path_less(b, a) {
        order::lemma_lex_transitive(a.parts, b.parts, a.parts, part_less());
    }
}

/// The order of paths is transitive.
pub proof fn lemma_path_less_transitive(a: FilePathView, b: FilePathView, c: FilePathView)
    requires
        path_less(a, b),
        path_less(b, c),
    ensures
        path_less(a, c),
{
    lemma_part_less_total();
    order::lemma_lex_transitive(a.parts, b.parts, c.parts, part_less());
}

/// How `a` stands to `b` in the order of paths.
pub fn relate_paths(a: &FilePath, b: &FilePath) -> (relation: Relation)
    ensures
        relation == (if a@.parts == b@.parts {
            Relation::Equal
        } else if path_less(a@, b@) {
            Relation::Less
        } else {
            Relation::Greater
        }),
{
    let mut i: usize = 0;
    while i < a.parts.len() && i < b.parts.len()
        invariant
            i <= a.parts@.len(),
            i <= b.parts@.len(),
            a@.parts.take(i as int) == b@.parts.take(i as int),
        decreases a.parts@.len() - i,
    {
        let relation = relate_parts(&a.parts[i], &b.parts[i]);
        match relation {
            Relation::Equal => {},
            Relation::Less => {
                assert(order::less_at(a@.parts, b@.parts, part_less(), i as int));
                proof {
                    lemma_path_less_asymmetric(a@, b@);
                }
                return Relation::Less;
            },
            Relation::Greater => {
                proof {
                    lemma_part_less_total();
                }
                assert(part_less()(b@.parts[i as int], a@.parts[i as int]));
                assert(order::less_at(b@.parts, a@.parts, part_less(), i as int));
                proof {
                    lemma_path_less_asymmetric(b@, a@);
                }
                return Relation::Greater;
            },
        }
        i = i + 1;
        assert(a@.parts.take(i as int) =~= a@.parts.take(i - 1).push(a@.parts[i - 1]));
        assert(b@.parts.take(i as int) =~= b@.parts.take(i - 1).push(b@.parts[i - 1]));
    }
    assert(a@.parts.take(a@.parts.len() as int) =~= a@.parts);
    assert(b@.parts.take(b@.parts.len() as int) =~= b@.parts);
    if i < b.parts.len() {
        assert(order::less_at(a@.parts, b@.parts, part_less(), i as int));
        proof {
            lemma_path_less_asymmetric(a@, b@);
        }
        Relation::Less
    } else if i < a.parts.len() {
        assert(order::less_at(b@.parts, a@.parts, part_less(), i as int));
        proof {
            lemma_path_less_asymmetric(b@, a@);
        }
        Relation::Greater
    } else {
        Relation::Equal
    }
}

/// A path lies below `base` exactly where its components go on from those of
/// `base`.
pub proof fn law_paths_below_go_on_from_their_base(path: FilePathView, base: FilePathView)
    ensures
        path.starts_with(base) ==> path.parts == base.parts + path.parts.skip(
            base.parts.len() as int,
        ),
        forall|rest: Seq<PathPartView>|
            path.parts == #[trigger] (base.parts + rest) ==> path.starts_with(base),
{
    if path.starts_with(base) {
        assert(path.parts =~= path.parts.take(base.parts.len() as int) + path.parts.skip(
            base.parts.len() as int,
        ));
    }
    assert forall|rest: Seq<PathPartView>|
        path.parts == #[trigger] (base.parts + rest) implies path.starts_with(base) by {
        assert(path.parts.take(base.parts.len() as int) =~= base.parts);
    }
}

/// The file name of a path is its last component, where that is a name, as the
/// text that its bytes encode; a path that ends otherwise, or in bytes that
/// encode no text, has none.
pub proof fn law_file_names_are_the_last_names(path: FilePathView, front: Seq<PathPartView>)
    ensures
        path.file_name() matches Some(name) ==> path.parts.len() > 0 && path.parts.last()
            == PathPartView::Normal(vstd::utf8::encode_utf8(name)),
        forall|name: Seq<char>|
            path.parts == front.push(
                PathPartView::Normal(#[trigger] vstd::utf8::encode_utf8(name)),
            ) ==> path.file_name() == Some(name),
        path.file_name() is None ==> path.parts.len() == 0 || !(path.parts.last() is Normal)
            || !vstd::utf8::valid_utf8(path.parts.last()->Normal_0),
{
    if path.file_name() is Some {
        vstd::utf8::decode_utf8_encode_utf8(path.parts.last()->Normal_0);
    }
    assert forall|name: Seq<char>|
        path.parts == front.push(
            PathPartView::Normal(#[trigger] vstd::utf8::encode_utf8(name)),
        ) implies path.file_name() == Some(name) by {
        vstd::utf8::encode_utf8_valid_utf8(name);
        vstd::utf8::encode_utf8_decode_utf8(name);
        assert(path.parts.last() == PathPartView::Normal(vstd::utf8::encode_utf8(name)));
    }
}

/// A path names a crash input exactly where its file name neither starts with a
/// dot nor ends in the extension of metadata.
pub proof fn law_crash_inputs_are_neither_hidden_nor_metadata(path: FilePathView, stem: Seq<char>)
    ensures
        path.is_crash_input() ==> path.file_name() is Some,
        path.file_name() matches Some(name) && name.len() > 0 && name[0] == '.'
            ==> !path.is_crash_input(),
        path.file_name() == Some(stem + ".metadata"@) ==> !path.is_crash_input(),
        path.file_name() matches Some(name) && (name.len() == 0 || name[0] != '.') && (name.len()
            < ".metadata"@.len() || name.skip(name.len() - ".metadata"@.len()) != ".metadata"@)
            ==> path.is_crash_input(),
{
    reveal_strlit(".");
    assert("."@ =~= seq!['.']);
    if let Some(name) = path.file_name() {
        text::lemma_begins_with_char(name, '.');
        text::law_parts_are_found(stem, ".metadata"@, Seq::empty());
        let k = name.len() - ".metadata"@.len();
        if k >= 0 {
            assert(name.subrange(k, name.len() as int) =~= name.skip(k));
        }
    }
}

/// A path that does not lie below `base` is given as a whole, one that does by
/// what its text goes on with behind `base`; with slashes for backslashes.
pub proof fn law_relative_text_is_the_end_of_the_text(path: FilePathView, base: FilePathView)
    requires
        path.valid(),
    ensures
        !path.starts_with(base) ==> path.relative_to(base) == text::forward_slashed(path.text),
        path.starts_with(base) ==> path.relative_to(base).len() <= path.rests[0].len(),
        path.starts_with(base) ==> path.relative_to(base) == text::forward_slashed(
            path.text.subrange(
                path.rests[0].len() - path.relative_to(base).len(),
                path.rests[0].len() as int,
            ),
        ),
        path.starts_with(base) ==> forall|i: int|
            path.rests[0].len() <= i < path.text.len() ==> is_separator(#[trigger] path.text[i])
                || path.text[i] == '.',
        path.starts_with(base) && base.parts.len() < path.parts.len() ==> (
        path.parts[base.parts.len() as int].spelling() matches Some(name) ==> text::begins_with(
            path.relative_to(base),
            text::forward_slashed(name),
        )),
{
    if path.starts_with(base) {
        let k = base.parts.len() as int;
        let whole = path.rests[0];
        let rest = path.rests[k];
        lemma_rests_are_ends(path, k);
        let n = whole.len() - rest.len();
        assert(path.text.subrange(0, whole.len() as int) == whole);
        assert(path.text.subrange(n, whole.len() as int) =~= whole.skip(n));
        if path.parts.len() > 0 {
            assert forall|i: int| whole.len() <= i < path.text.len() implies is_separator(
                #[trigger] path.text[i],
            ) || path.text[i] == '.' by {
                assert(is_gap_at(path.text, path.trailer(), path.text.len() as int, i));
            }
        }
        if k < path.parts.len() {
            assert(path.leads_at(k));
            if let Some(name) = path.parts[k].spelling() {
                assert(rest.subrange(0, name.len() as int) == name);
                assert(text::forward_slashed(rest).subrange(0, name.len() as int)
                    =~= text::forward_slashed(rest.subrange(0, name.len() as int)));
            }
        }
    }
}

proof fn lemma_rests_are_ends(path: FilePathView, k: int)
    requires
        path.valid(),
        0 <= k <= path.parts.len(),
    ensures
        path.rests[k].len() <= path.rests[0].len(),
        path.rests[0].skip(path.rests[0].len() - path.rests[k].len()) == path.rests[k],
    decreases k,
{
    let whole = path.rests[0];
    if k == 0 {
        assert(whole.skip(0) =~= whole);
    } else {
        lemma_rests_are_ends(path, k - 1);
        assert(path.leads_at(k - 1));
        let before = path.rests[k - 1];
        let rest = path.rests[k];
        assert(before.subrange(before.len() - rest.len(), before.len() as int) == rest);
        assert(whole.skip(whole.len() - rest.len()) =~= before.skip(before.len() - rest.len()));
        assert(before.skip(before.len() - rest.len()) =~= rest);
    }
}

/// Paths are ordered by the first component in which they differ, and a path
/// comes before those that lie below it.
pub proof fn law_first_different_component_decides(
    a: FilePathView,
    b: FilePathView,
    front: Seq<PathPartView>,
    x: PathPartView,
    y: PathPartView,
    more: Seq<PathPartView>,
    others: Seq<PathPartView>,
)
    requires
        b.parts == front + seq![y] + others,
    ensures
        a.parts == front ==> path_less(a, b) && !path_less(b, a),
        a.parts == front + seq![x] + more && part_less()(x, y) ==> path_less(a, b) && !path_less(
            b,
            a,
        ),
{
    let k = front.len() as int;
    assert(b.parts.take(k) =~= front);
    if a.parts == front {
        assert(a.parts.take(k) =~= front);
        assert(order::less_at(a.parts, b.parts, part_less(), k));
        lemma_path_less_asymmetric(a, b);
    }
    if a.parts == front + seq![x] + more && part_less()(x, y) {
        assert(a.parts.take(k) =~= front);
        assert(order::less_at(a.parts, b.parts, part_less(), k));
        lemma_path_less_asymmetric(a, b);
    }
}

/// Of two components, a prefix comes before the root, that before `.`, that
/// before `..`, and that before every name; names are ordered by the first byte
/// in which they differ, and a name comes before those that it is the front of.
pub proof fn law_components_are_ordered_by_kind_and_bytes(
    prefix: Seq<u8>,
    front: Seq<u8>,
    c: u8,
    d: u8,
    x: Seq<u8>,
    y: Seq<u8>,
)
    requires
        c < d,
    ensures
        part_less()(PathPartView::Prefix(prefix), PathPartView::RootDir),
        part_less()(PathPartView::RootDir, PathPartView::CurDir),
        part_less()(PathPartView::CurDir, PathPartView::ParentDir),
        part_less()(PathPartView::ParentDir, PathPartView::Normal(front)),
        part_less()(
            PathPartView::Normal(front + seq![c] + x),
            PathPartView::Normal(front + seq![d] + y),
        ),
        part_less()(PathPartView::Normal(front), PathPartView::Normal(front + seq![c] + x)),
        part_less()(
            PathPartView::Prefix(front + seq![c] + x),
            PathPartView::Prefix(front + seq![d] + y),
        ),
        part_less()(PathPartView::Prefix(front), PathPartView::Prefix(front + seq![c] + x)),
        order::strict_total(part_less()),
{
    let a = front + seq![c] + x;
    let b = front + seq![d] + y;
    let k = front.len() as int;
    assert(a.take(k) =~= front);
    assert(b.take(k) =~= front);
    assert(front.take(k) =~= front);
    assert(order::less_at(a, b, byte_less(), k));
    assert(order::less_at(front, a, byte_less(), k));
    lemma_part_less_total();
}

/// The text of the names `names`, with a slash between each two.
pub open spec fn joined(names: Seq<Seq<u8>>) -> Seq<char>
    decreases names.len(),
{
    if names.len() == 0 {
        Seq::empty()
    } else if names.len() == 1 {
        vstd::utf8::decode_utf8(names[0])
    } else {
        vstd::utf8::decode_utf8(names[0]) + seq!['/'] + joined(names.drop_first())
    }
}

/// Names in UTF-8 that are not empty and hold no slash, joined by slashes, make
/// a path, and so they do behind a root.
pub proof fn law_joined_names_make_a_path(names: Seq<Seq<u8>>)
    requires
        forall|i: int|
            0 <= i < names.len() ==> vstd::utf8::valid_utf8(#[trigger] names[i]) && names[i].len()
                > 0 && !names[i].contains(47),
    ensures
        (FilePathView {
            text: joined(names),
            parts: names.map_values(|name: Seq<u8>| PathPartView::Normal(name)),
            rests: Seq::new(names.len() + 1, |k: int| joined(names.skip(k))),
        }).valid(),
        (FilePathView {
            text: seq!['/'] + joined(names),
            parts: seq![PathPartView::RootDir] + names.map_values(
                |name: Seq<u8>| PathPartView::Normal(name),
            ),
            rests: seq![seq!['/'] + joined(names)] + Seq::new(
                names.len() + 1,
                |k: int| joined(names.skip(k)),
            ),
        }).valid(),
{
    let parts = names.map_values(|name: Seq<u8>| PathPartView::Normal(name));
    let rests = Seq::new(names.len() + 1, |k: int| joined(names.skip(k)));
    let path = FilePathView { text: joined(names), parts, rests };
    assert(names.skip(0) =~= names);
    assert(names.skip(names.len() as int) =~= Seq::<Seq<u8>>::empty());
    assert forall|i: int| 0 <= i < names.len() implies (#[trigger] parts[i]).valid() by {
        assert forall|j: int| 0 <= j < names[i].len() implies #[trigger] names[i][j] != 47 by {
            assert(names[i].contains(names[i][j]));
        }
    }
    assert forall|k: int| 0 <= k < parts.len() implies #[trigger] path.leads_at(k) by {
        lemma_joined_leads(names, k);
    }
    assert(path.text.subrange(0, path.text.len() as int) =~= path.text);
    let text = seq!['/'] + joined(names);
    let rooted = FilePathView {
        text,
        parts: seq![PathPartView::RootDir] + parts,
        rests: seq![text] + rests,
    };
    assert(rooted.rests[1] == joined(names));
    assert forall|i: int| 0 <= i < rooted.parts.len() implies (#[trigger] rooted.parts[i]).valid() by {
        if i > 0 {
            assert(rooted.parts[i] == parts[i - 1]);
            assert(parts[i - 1].valid());
        }
    }
    assert forall|k: int| 0 <= k < rooted.parts.len() implies #[trigger] rooted.leads_at(k) by {
        if k > 0 {
            assert(rooted.rests[k] == rests[k - 1]);
            assert(rooted.rests[k + 1] == rests[k]);
            assert(rooted.parts[k] == parts[k - 1]);
            lemma_joined_leads(names, k - 1);
        } else {
            assert(text.subrange(1, text.len() as int) =~= joined(names));
            assert(is_gap_at(text, 0, 1, 0));
        }
    }
    assert(text.subrange(0, text.len() as int) =~= text);
    if names.len() == 0 {
        assert(is_gap_at(text, 0, 1, 0));
    }
    assert forall|i: int| rooted.trailer() <= i < text.len() implies #[trigger] is_gap_at(
        text,
        rooted.trailer(),
        text.len() as int,
        i,
    ) by {
        if names.len() > 0 {
            assert(rooted.parts.last() == parts[names.len() - 1]);
        } else {
            assert(text =~= seq!['/']);
        }
    }
}

proof fn lemma_joined_leads(names: Seq<Seq<u8>>, k: int)
    requires
        0 <= k < names.len(),
        vstd::utf8::valid_utf8(names[k]),
    ensures
        PathPartView::Normal(names[k]).leads(
            joined(names.skip(k)),
            joined(names.skip(k + 1)),
            k + 1 == names.len(),
        ),
{
    let name = vstd::utf8::decode_utf8(names[k]);
    let rest = joined(names.skip(k + 1));
    let text = joined(names.skip(k));
    assert(names.skip(k)[0] == names[k]);
    assert(names.skip(k).drop_first() =~= names.skip(k + 1));
    if k + 1 == names.len() {
        assert(rest =~= Seq::<char>::empty());
        assert(text == name);
        assert(text.subrange(0, name.len() as int) =~= name);
        assert(text.subrange(text.len() as int, text.len() as int) =~= rest);
    } else {
        assert(text == name + seq!['/'] + rest);
        let end = text.len() - rest.len();
        assert(end == name.len() + 1);
        assert(text.subrange(end, text.len() as int) =~= rest);
        assert(text.subrange(0, name.len() as int) =~= name);
        assert(text[name.len() as int] == '/');
        assert forall|i: int| name.len() <= i < end implies #[trigger] is_gap_at(
            text,
            name.len() as int,
            end,
            i,
        ) by {
            assert(i == name.len());
        }
    }
}

/// The view of a component is of the same kind, and keeps its bytes as they
/// are.
pub proof fn law_views_of_components_keep_every_byte(part: PathPart)
    ensures
        part matches PathPart::Prefix(bytes) ==> part@ == PathPartView::Prefix(bytes@),
        part matches PathPart::Normal(bytes) ==> part@ == PathPartView::Normal(bytes@),
        part is RootDir <==> part@ is RootDir,
        part is CurDir <==> part@ is CurDir,
        part is ParentDir <==> part@ is ParentDir,
{
}

/// What stands between components starts with a separator and is made of
/// separators and dots; a dot stands behind a separator, and before one where
/// the text goes on. Separators alone may always stand there.
pub proof fn law_gaps_name_no_component(text: Seq<char>, from: int, to: int)
    requires
        0 <= from <= to <= text.len(),
    ensures
        is_gap(text, from, to) && from < to ==> text[from] == '/' || text[from] == '\\',
        is_gap(text, from, to) ==> forall|i: int|
            from <= i < to ==> (#[trigger] text[i] == '/' || text[i] == '\\' || text[i] == '.'),
        is_gap(text, from, to) ==> forall|i: int|
            from <= i < to && #[trigger] text[i] == '.' ==> from < i && (text[i - 1] == '/'
                || text[i - 1] == '\\') && (i + 1 < text.len() ==> i + 1 < to && (text[i + 1] == '/'
                || text[i + 1] == '\\')),
        (forall|i: int| from <= i < to ==> (#[trigger] text[i] == '/' || text[i] == '\\'))
            ==> is_gap(text, from, to),
{
    if is_gap(text, from, to) {
        if from < to {
            assert(is_gap_at(text, from, to, from));
        }
        assert forall|i: int| from <= i < to implies (#[trigger] text[i] == '/' || text[i] == '\\'
            || text[i] == '.') by {
            assert(is_gap_at(text, from, to, i));
        }
        assert forall|i: int| from <= i < to && #[trigger] text[i] == '.' implies from < i && (
        text[i - 1] == '/' || text[i - 1] == '\\') && (i + 1 < text.len() ==> i + 1 < to && (
        text[i + 1] == '/' || text[i + 1] == '\\')) by {
            assert(is_gap_at(text, from, to, i));
        }
    }
}

/// A component that leads a text stands at its start, what follows it stands at
/// its end, and between them stands nothing that names a component; behind the
/// last component stands nothing at all.
pub proof fn law_components_lead_their_text(
    part: PathPartView,
    text: Seq<char>,
    rest: Seq<char>,
    last: bool,
)
    requires
        part.leads(text, rest, last),
    ensures
        text.len() >= rest.len(),
        text == text.take(text.len() - rest.len()) + rest,
        part.spelling() matches Some(name) ==> {
            &&& name.len() + rest.len() <= text.len()
            &&& text == name + text.subrange(name.len() as int, text.len() - rest.len()) + rest
            &&& is_gap(text, name.len() as int, text.len() - rest.len())
            &&& last <==> text == name + rest
        },
        part is CurDir ==> part.spelling() == Some("."@),
        part is ParentDir ==> part.spelling() == Some(".."@),
        part matches PathPartView::Normal(bytes) ==> (part.spelling() matches Some(name)
            ==> vstd::utf8::encode_utf8(name) == bytes),
{
    let end = text.len() - rest.len();
    assert(text.subrange(end, text.len() as int) == rest);
    assert(text =~= text.take(end) + rest);
    if let Some(name) = part.spelling() {
        assert(text.subrange(0, name.len() as int) == name);
        assert(text =~= name + text.subrange(name.len() as int, end) + rest);
        if last {
            assert(text =~= name + rest);
        }
        if text == name + rest {
            assert(text.len() == name.len() + rest.len());
        }
    }
    if let PathPartView::Normal(bytes) = part {
        if vstd::utf8::valid_utf8(bytes) {
            vstd::utf8::decode_utf8_encode_utf8(bytes);
        }
    }
}

} // verus!
