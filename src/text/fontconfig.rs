//! The fontconfig configuration: which directories hold fonts, and which files in them are
//! fonts.
use vstd::prelude::*;
use vstd::utf8::encode_utf8;

use xml::reader::{EventReader, XmlEvent};

verus! {

/// One event of an XML document, as far as the configuration needs it
#[derive(Clone, Debug)]
pub enum ConfigEvent {
    /// An element opens, with its name
    Open(String),
    /// An element closes
    Close,
    /// Text or character data inside the innermost open element
    Text(String),
    /// Anything else: the prologue, comments, processing instructions, whitespace
    Other,
    /// The document is not well-formed XML; nothing follows
    Malformed,
}

/// Why a configuration could not be read.
#[derive(Clone, Copy, Debug, PartialEq, Eq, Structural)]
pub enum FontConfigError {
    /// The configuration file is not well-formed XML
    Malformed,
}

/// The events xml-rs reads from a document.
pub uninterp spec fn xml_events_of(bytes: Seq<u8>) -> Seq<ConfigEvent>;

/// Relies on `xml::reader::EventReader`: the events it reads from `bytes`, each variant mapped
/// to its counterpart; reading stops after an error.
#[verifier::external_body]
fn xml_events(bytes: &[u8]) -> (r: Vec<ConfigEvent>)
    ensures
        r@ == xml_events_of(bytes@),
{
    let mut out = Vec::new();
    for e in EventReader::new(bytes) {
        out.push(match e {
            Ok(XmlEvent::StartElement { name, .. }) => ConfigEvent::Open(name.to_string()),
            Ok(XmlEvent::EndElement { .. }) => ConfigEvent::Close,
            Ok(XmlEvent::CData(data)) => ConfigEvent::Text(data),
            Ok(XmlEvent::Characters(data)) => ConfigEvent::Text(data),
            Ok(_) => ConfigEvent::Other,
            Err(_) => ConfigEvent::Malformed,
        });
    }
    out
}

/// The elements open after `events`, outermost first, and each piece of text met so far
/// with the elements open around it.
pub open spec fn scan(events: Seq<ConfigEvent>) -> (Seq<String>, Seq<(Seq<String>, String)>)
    decreases events.len(),
{
    if events.len() == 0 {
        (seq![], seq![])
    } else {
        let (tags, entries) = scan(events.drop_last());
        match events.last() {
            ConfigEvent::Open(name) => (tags.push(name), entries),
            ConfigEvent::Close => (if tags.len() > 0 { tags.drop_last() } else { tags }, entries),
            ConfigEvent::Text(data) => (tags, entries.push((tags, data))),
            _ => (tags, entries),
        }
    }
}

/// No event reports malformed XML.
pub open spec fn well_formed(events: Seq<ConfigEvent>) -> bool {
    forall|i: int| 0 <= i < events.len() ==> !(#[trigger] events[i] is Malformed)
}

/// The entries of a configuration, with the element names as values.
pub open spec fn entries_view(data: Seq<(Vec<String>, String)>) -> Seq<(Seq<String>, String)> {
    data.map_values(|e: (Vec<String>, String)| (e.0@, e.1))
}

/// The element name `dir`.
pub open spec fn dir_tag() -> Seq<char> {
    seq!['d', 'i', 'r']
}

/// The text of each entry found directly inside a `dir` element, in order.
pub open spec fn font_dirs(entries: Seq<(Seq<String>, String)>) -> Seq<String>
    decreases entries.len(),
{
    if entries.len() == 0 {
        seq![]
    } else {
        let e = entries.last();
        let rest = font_dirs(entries.drop_last());
        if e.0.len() > 0 && e.0.last()@ == dir_tag() {
            rest.push(e.1)
        } else {
            rest
        }
    }
}

/// The last component of a path, as bytes: what follows the last `/`.
pub open spec fn file_name(p: Seq<u8>) -> Seq<u8>
    decreases p.len(),
{
    if p.len() == 0 || p.last() == 0x2fu8 {
        seq![]
    } else {
        file_name(p.drop_last()).push(p.last())
    }
}

/// Whether the file name of `p` has a stem and the extension `ext` (without its dot).
pub open spec fn has_extension(p: Seq<u8>, ext: Seq<u8>) -> bool {
    let n = file_name(p);
    &&& n.len() > ext.len() + 1
    &&& n[n.len() - ext.len() - 1] == 0x2eu8
    &&& n.subrange(n.len() - ext.len(), n.len() as int) == ext
}

/// `ttf`
pub open spec fn ttf() -> Seq<u8> {
    seq![0x74u8, 0x74u8, 0x66u8]
}

/// `otf`
pub open spec fn otf() -> Seq<u8> {
    seq![0x6fu8, 0x74u8, 0x66u8]
}

/// `fonts.dir`
pub open spec fn fonts_dir() -> Seq<u8> {
    seq![0x66u8, 0x6fu8, 0x6eu8, 0x74u8, 0x73u8, 0x2eu8, 0x64u8, 0x69u8, 0x72u8]
}

/// The paths of `paths` that satisfy `keep`, in order.
pub open spec fn select(paths: Seq<String>, keep: spec_fn(Seq<u8>) -> bool) -> Seq<String>
    decreases paths.len(),
{
    if paths.len() == 0 {
        seq![]
    } else {
        let rest = select(paths.drop_last(), keep);
        if keep(encode_utf8(paths.last()@)) {
            rest.push(paths.last())
        } else {
            rest
        }
    }
}

/// A TrueType or OpenType font file.
pub open spec fn is_font_file(p: Seq<u8>) -> bool {
    has_extension(p, ttf()) || has_extension(p, otf())
}

/// A `fonts.dir` index file.
pub open spec fn is_fonts_dir_file(p: Seq<u8>) -> bool {
    file_name(p) == fonts_dir()
}

/// The first position from `from` on where `s` holds `b`, or the length of `s`.
pub open spec fn find_byte(s: Seq<u8>, b: u8, from: int) -> int
    decreases s.len() - from,
{
    if from < 0 || from >= s.len() {
        s.len() as int
    } else if s[from] == b {
        from
    } else {
        find_byte(s, b, from + 1)
    }
}

/// The lines of `c`: split at each newline, with a carriage return before it dropped.
pub open spec fn lines(c: Seq<u8>) -> Seq<Seq<u8>>
    decreases c.len(),
{
    if c.len() == 0 {
        seq![]
    } else {
        let end = find_byte(c, 0x0au8, 0);
        let line = c.take(end);
        let line = if line.len() > 0 && line.last() == 0x0du8 { line.drop_last() } else { line };
        if end < 0 || end >= c.len() {
            seq![line]
        } else {
            seq![line] + lines(c.skip(end + 1))
        }
    }
}

/// `pat` stands in `s` at position `i`.
pub open spec fn occurs_at(s: Seq<u8>, pat: Seq<u8>, i: int) -> bool {
    0 <= i && i + pat.len() <= s.len() && s.subrange(i, i + pat.len()) == pat
}

/// `pat` stands in `s` at position `i`, at the start of a word if `word_start`.
pub open spec fn found_at(s: Seq<u8>, pat: Seq<u8>, i: int, word_start: bool) -> bool {
    occurs_at(s, pat, i) && (!word_start || i == 0 || is_separator(s[i - 1]))
}

/// A space or a dash: what separates the words of a font's description.
pub open spec fn is_separator(b: u8) -> bool {
    b == 0x20u8 || b == 0x2du8
}

/// `medium-r-normal`: the weight, slant and width of a regular font.
pub open spec fn regular_marker() -> Seq<u8> {
    seq![0x6du8, 0x65u8, 0x64u8, 0x69u8, 0x75u8, 0x6du8, 0x2du8, 0x72u8, 0x2du8, 0x6eu8, 0x6fu8, 0x72u8, 0x6du8, 0x61u8, 0x6cu8]
}

/// Some word of `description` begins with `family`, a word without separators.
pub open spec fn names_family(description: Seq<u8>, family: Seq<u8>) -> bool {
    &&& family.len() > 0
    &&& forall|k: int| 0 <= k < family.len() ==> !is_separator(#[trigger] family[k])
    &&& exists|i: int| found_at(description, family, i, true)
}

/// The file a line of a `fonts.dir` index names, if the line describes a regular font of
/// `family`: the line mentions `medium-r-normal`, and after the file name, which ends at the
/// first space, a word of the description begins with the family's name.
pub open spec fn line_font(line: Seq<u8>, family: Seq<u8>) -> Option<Seq<u8>> {
    let sp = find_byte(line, 0x20u8, 0);
    if (exists|i: int| found_at(line, regular_marker(), i, false)) && sp < line.len() && names_family(line.skip(sp), family) {
        Some(line.take(sp))
    } else {
        None
    }
}

/// `found` with `p` added at the end, unless it is there already.
pub open spec fn add_unique(found: Seq<Seq<u8>>, p: Seq<u8>) -> Seq<Seq<u8>> {
    if found.contains(p) { found } else { found.push(p) }
}

/// `found` with the fonts of `family` that the lines `ls` of an index name added, each as
/// the index's directory `dir` followed by the file's name.
pub open spec fn add_line_fonts(found: Seq<Seq<u8>>, dir: Seq<u8>, ls: Seq<Seq<u8>>, family: Seq<u8>) -> Seq<Seq<u8>>
    decreases ls.len(),
{
    if ls.len() == 0 {
        found
    } else {
        let next = match line_font(ls[0], family) {
            Some(name) => add_unique(found, dir + name),
            None => found,
        };
        add_line_fonts(next, dir, ls.skip(1), family)
    }
}

/// The regular fonts of `family` that the indexes `files` name, each given as its
/// directory and its contents; every path once, in the order first named.
pub open spec fn family_fonts(found: Seq<Seq<u8>>, files: Seq<(Seq<u8>, Seq<u8>)>, family: Seq<u8>) -> Seq<Seq<u8>>
    decreases files.len(),
{
    if files.len() == 0 {
        found
    } else {
        family_fonts(add_line_fonts(found, files[0].0, lines(files[0].1), family), files.skip(1), family)
    }
}

/// Represents the main fontconfig config file
pub struct FontConfig {
    location: String,
    data: Vec<(Vec<String>, String)>,
}

impl FontConfig {
    /// Where the configuration was read from.
    pub closed spec fn location_view(&self) -> Seq<char> {
        self.location@
    }

    /// The configuration's text entries, each with the elements open around it.
    pub closed spec fn entries(&self) -> Seq<(Seq<String>, String)> {
        entries_view(self.data@)
    }

    /// Reads the configuration file found at `location`, whose contents are `contents`.
    /// Fails if the contents are not well-formed XML.
    pub fn new(location: String, contents: &[u8]) -> (r: Result<FontConfig, FontConfigError>)
        ensures
            r is Ok <==> well_formed(xml_events_of(contents@)),
            r matches Ok(c) ==> c.location_view() == location@ && c.entries() == scan(xml_events_of(contents@)).1,
    {
        let events = xml_events(contents);
        FontConfig::from_events(location, &events)
    }

    /// Builds the configuration at `location` from the XML events of its file. Fails if an
    /// event reports malformed XML.
    pub fn from_events(location: String, events: &Vec<ConfigEvent>) -> (r: Result<FontConfig, FontConfigError>)
        ensures
            r is Ok <==> well_formed(events@),
            r matches Ok(c) ==> c.location_view() == location@ && c.entries() == scan(events@).1,
    {
        let mut tags: Vec<String> = Vec::new();
        let mut data: Vec<(Vec<String>, String)> = Vec::new();
        let mut i: usize = 0;
        while i < events.len()
            invariant
                i <= events@.len(),
                well_formed(events@.take(i as int)),
                tags@ == scan(events@.take(i as int)).0,
                entries_view(data@) == scan(events@.take(i as int)).1,
            decreases events@.len() - i,
        {
            proof {
                assert(events@.take(i + 1).drop_last() =~= events@.take(i as int));
                assert(events@.take(i + 1).last() == events@[i as int]);
            }
            match &events[i] {
                ConfigEvent::Open(name) => {
                    tags.push(name.clone());
                },
                ConfigEvent::Close => {
                    if tags.len() > 0 {
                        tags.pop();
                    }
                },
                ConfigEvent::Text(text) => {
                    let open = copy_tags(&tags);
                    data.push((open, text.clone()));
                    proof {
                        assert(entries_view(data@) =~= scan(events@.take(i + 1)).1);
                    }
                },
                ConfigEvent::Other => {},
                ConfigEvent::Malformed => {
                    proof {
                        assert(!well_formed(events@));
                    }
                    return Err(FontConfigError::Malformed);
                },
            }
            proof {
                assert forall|j: int| 0 <= j < i + 1 implies !(#[trigger] events@.take(i + 1)[j] is Malformed) by {
                    if j < i {
                        assert(events@.take(i + 1)[j] == events@.take(i as int)[j]);
                    }
                }
            }
            i = i + 1;
        }
        proof {
            assert(events@.take(events@.len() as int) =~= events@);
        }
        Ok(FontConfig { location, data })
    }

    /// Returns the location of the fontconfig config file being used
    pub fn get_location(&self) -> (r: &str)
        ensures
            r@ == self.location_view(),
    {
        self.location.as_str()
    }

    /// Get the directories that the configuration names for fonts, in order
    pub fn get_font_dirs(&self) -> (r: Vec<String>)
        ensures
            r@ == font_dirs(self.entries()),
    {
        let dir = "dir".to_owned();
        proof {
            reveal_strlit("dir");
            assert(dir@ =~= dir_tag());
        }
        let mut dirs: Vec<String> = Vec::new();
        let mut i: usize = 0;
        while i < self.data.len()
            invariant
                i <= self.data@.len(),
                dir@ == dir_tag(),
                dirs@ == font_dirs(entries_view(self.data@).take(i as int)),
            decreases self.data@.len() - i,
        {
            proof {
                assert(entries_view(self.data@).take(i + 1).drop_last() =~= entries_view(self.data@).take(i as int));
            }
            let entry = &self.data[i];
            let n = entry.0.len();
            if n > 0 && entry.0[n - 1] == dir {
                dirs.push(entry.1.clone());
            }
            i = i + 1;
        }
        proof {
            assert(entries_view(self.data@).take(self.data@.len() as int) =~= entries_view(self.data@));
        }
        dirs
    }

    /// Return the font files, TrueType or OpenType by their extension, among `files`: the
    /// files found under the font directories
    pub fn get_fonts(files: &Vec<String>) -> (r: Vec<String>)
        ensures
            r@ == select(files@, |p: Seq<u8>| is_font_file(p)),
    {
        let mut fonts: Vec<String> = Vec::new();
        let mut i: usize = 0;
        while i < files.len()
            invariant
                i <= files@.len(),
                fonts@ == select(files@.take(i as int), |p: Seq<u8>| is_font_file(p)),
            decreases files@.len() - i,
        {
            proof {
                assert(files@.take(i + 1).drop_last() =~= files@.take(i as int));
            }
            let b = files[i].as_str().as_bytes();
            if is_font_path(b) {
                fonts.push(files[i].clone());
            }
            i = i + 1;
        }
        proof {
            assert(files@.take(files@.len() as int) =~= files@);
        }
        fonts
    }

    /// Return the `fonts.dir` index files among `files`: the files found under the font
    /// directories
    pub fn get_font_dir_files(files: &Vec<String>) -> (r: Vec<String>)
        ensures
            r@ == select(files@, |p: Seq<u8>| is_fonts_dir_file(p)),
    {
        let mut found: Vec<String> = Vec::new();
        let mut i: usize = 0;
        while i < files.len()
            invariant
                i <= files@.len(),
                found@ == select(files@.take(i as int), |p: Seq<u8>| is_fonts_dir_file(p)),
            decreases files@.len() - i,
        {
            proof {
                assert(files@.take(i + 1).drop_last() =~= files@.take(i as int));
            }
            let b = files[i].as_str().as_bytes();
            if is_fonts_dir_path(b) {
                found.push(files[i].clone());
            }
            i = i + 1;
        }
        proof {
            assert(files@.take(files@.len() as int) =~= files@);
        }
        found
    }
}

impl FontConfig {
    /// Returns the paths of the regular fonts of `family` that `fonts.dir` indexes name,
    /// each index given as its directory, ending in `/`, and its contents; every path once,
    /// in the order first named
    pub fn get_regular_family_fonts(index_files: &Vec<(Vec<u8>, Vec<u8>)>, family: &[u8]) -> (r: Vec<Vec<u8>>)
        ensures
            bytes_list(r@) == family_fonts(seq![], index_view(index_files@), family@),
    {
        let mut found: Vec<Vec<u8>> = Vec::new();
        let ghost files = index_view(index_files@);
        let mut fi: usize = 0;
        proof {
            assert(files.skip(0) =~= files);
            assert(bytes_list(found@) =~= Seq::<Seq<u8>>::empty());
        }
        while fi < index_files.len()
            invariant
                fi <= index_files@.len(),
                files == index_view(index_files@),
                family_fonts(bytes_list(found@), files.skip(fi as int), family@) == family_fonts(seq![], files, family@),
            decreases index_files@.len() - fi,
        {
            proof {
                assert(files.skip(fi as int).skip(1) =~= files.skip(fi + 1));
                assert(files.skip(fi as int)[0] == files[fi as int]);
            }
            add_index_fonts(&mut found, &index_files[fi].0, &index_files[fi].1, family);
            fi = fi + 1;
        }
        proof {
            assert(files.skip(fi as int) =~= Seq::<(Seq<u8>, Seq<u8>)>::empty());
        }
        found
    }
}

/// The contents of each list of bytes.
pub open spec fn bytes_list(v: Seq<Vec<u8>>) -> Seq<Seq<u8>> {
    v.map_values(|p: Vec<u8>| p@)
}

/// Each index as its directory and contents.
pub open spec fn index_view(v: Seq<(Vec<u8>, Vec<u8>)>) -> Seq<(Seq<u8>, Seq<u8>)> {
    v.map_values(|f: (Vec<u8>, Vec<u8>)| (f.0@, f.1@))
}

/// Adds the fonts of `family` that the index in directory `dir` with contents `c` names.
fn add_index_fonts(found: &mut Vec<Vec<u8>>, dir: &Vec<u8>, c: &Vec<u8>, family: &[u8])
    ensures
        bytes_list(final(found)@) == add_line_fonts(bytes_list(old(found)@), dir@, lines(c@), family@),
{
    let n = c.len();
    let mut pos: usize = 0;
    proof {
        assert(c@.subrange(0, n as int) =~= c@);
    }
    while pos < n
        invariant
            pos <= n,
            n == c@.len(),
            add_line_fonts(bytes_list(found@), dir@, lines(c@.subrange(pos as int, n as int)), family@)
                == add_line_fonts(bytes_list(old(found)@), dir@, lines(c@), family@),
        decreases n - pos,
    {
        let ghost rest = c@.subrange(pos as int, n as int);
        let end = find_in(c, pos, n, 0x0a);
        let mut e = end;
        if e > pos && c[e - 1] == 0x0d {
            e = e - 1;
        }
        let ghost line = c@.subrange(pos as int, e as int);
        proof {
            let l0 = rest.take(end - pos);
            assert(l0 =~= c@.subrange(pos as int, end as int));
            if l0.len() > 0 && l0.last() == 0x0du8 {
                assert(l0.drop_last() =~= line);
            } else {
                assert(l0 =~= line);
            }
            if end < n {
                assert(rest.skip(end - pos + 1) =~= c@.subrange(end + 1, n as int));
            }
        }
        let ghost before = bytes_list(found@);
        match line_name(c, pos, e, family) {
            Some(sp) => {
                let mut path: Vec<u8> = Vec::new();
                append_range(&mut path, dir, 0, dir.len());
                append_range(&mut path, c, pos, sp);
                proof {
                    assert(dir@.subrange(0, dir@.len() as int) =~= dir@);
                    assert(c@.subrange(pos as int, sp as int) =~= line.take(sp - pos));
                }
                add_unique_path(found, path);
            },
            None => {},
        }
        proof {
            let ls = lines(rest);
            assert(ls[0] == line);
            let ls1 = ls.skip(1);
            if end >= n {
                assert(ls1 =~= Seq::<Seq<u8>>::empty());
                assert(c@.subrange(n as int, n as int) =~= Seq::<u8>::empty());
            } else {
                assert(ls1 =~= lines(c@.subrange(end + 1, n as int)));
            }
        }
        if end >= n {
            pos = n;
        } else {
            pos = end + 1;
        }
    }
    proof {
        assert(c@.subrange(n as int, n as int) =~= Seq::<u8>::empty());
    }
}

/// Where the file name ends in the line `c[lo..hi]`, if the line names a regular font of
/// `family`; see `line_font`.
fn line_name(c: &Vec<u8>, lo: usize, hi: usize, family: &[u8]) -> (r: Option<usize>)
    requires
        lo <= hi <= c@.len(),
    ensures
        r is None <==> line_font(c@.subrange(lo as int, hi as int), family@) is None,
        r matches Some(sp) ==> lo <= sp <= hi && line_font(c@.subrange(lo as int, hi as int), family@)
            == Some(c@.subrange(lo as int, hi as int).take(sp - lo)),
{
    let ghost line = c@.subrange(lo as int, hi as int);
    let marker: [u8; 15] = [0x6d, 0x65, 0x64, 0x69, 0x75, 0x6d, 0x2d, 0x72, 0x2d, 0x6e, 0x6f, 0x72, 0x6d, 0x61, 0x6c];
    assert(marker@ =~= regular_marker());
    if !find_word(c, lo, hi, marker.as_slice(), false) {
        return None;
    }
    let sp = find_in(c, lo, hi, 0x20);
    if sp >= hi {
        return None;
    }
    if family.len() == 0 {
        return None;
    }
    let mut k: usize = 0;
    while k < family.len()
        invariant
            k <= family@.len(),
            forall|j: int| 0 <= j < k ==> !is_separator(#[trigger] family@[j]),
        decreases family@.len() - k,
    {
        if family[k] == 0x20 || family[k] == 0x2d {
            return None;
        }
        k = k + 1;
    }
    assert(line.skip(sp - lo) =~= c@.subrange(sp as int, hi as int));
    if find_word(c, sp, hi, family, true) {
        Some(sp)
    } else {
        None
    }
}

/// The first position from `lo` on, before `hi`, where `c` holds `b`, or `hi`.
fn find_in(c: &Vec<u8>, lo: usize, hi: usize, b: u8) -> (r: usize)
    requires
        lo <= hi <= c@.len(),
    ensures
        lo <= r <= hi,
        r - lo == find_byte(c@.subrange(lo as int, hi as int), b, 0),
{
    let ghost s = c@.subrange(lo as int, hi as int);
    let mut i: usize = lo;
    while i < hi && c[i] != b
        invariant
            lo <= i <= hi,
            hi <= c@.len(),
            s == c@.subrange(lo as int, hi as int),
            find_byte(s, b, 0) == find_byte(s, b, i - lo),
        decreases hi - i,
    {
        i = i + 1;
    }
    i
}

/// Whether `pat` stands somewhere in `c[lo..hi]`, at the start of a word if `word_start`.
fn find_word(c: &Vec<u8>, lo: usize, hi: usize, pat: &[u8], word_start: bool) -> (r: bool)
    requires
        lo <= hi <= c@.len(),
    ensures
        r == exists|i: int| found_at(c@.subrange(lo as int, hi as int), pat@, i, word_start),
{
    let ghost s = c@.subrange(lo as int, hi as int);
    let plen = pat.len();
    if plen > hi - lo {
        return false;
    }
    if plen == 0 {
        assert(s.subrange(0, 0) =~= pat@);
        assert(found_at(s, pat@, 0, word_start));
        return true;
    }
    let mut i: usize = lo;
    while i <= hi - plen
        invariant
            lo <= i <= hi - plen + 1,
            plen == pat@.len(),
            plen > 0,
            plen <= hi - lo,
            hi <= c@.len(),
            s == c@.subrange(lo as int, hi as int),
            forall|k: int| 0 <= k < i - lo ==> !found_at(s, pat@, k, word_start),
        decreases hi - i,
    {
        let starts = !word_start || i == lo || c[i - 1] == 0x20 || c[i - 1] == 0x2d;
        if starts && matches_at(c, i, pat) {
            proof {
                assert(s.subrange(i - lo, i - lo + plen) =~= c@.subrange(i as int, i + plen));
                assert(found_at(s, pat@, i - lo, word_start));
            }
            return true;
        }
        proof {
            assert(s.subrange(i - lo, i - lo + plen) =~= c@.subrange(i as int, i + plen));
            if i > lo {
                assert(s[i - lo - 1] == c@[i - 1]);
            }
        }
        i = i + 1;
    }
    proof {
        assert forall|k: int| !found_at(s, pat@, k, word_start) by {
            if 0 <= k < i - lo {
            } else if k >= i - lo {
                assert(k + plen > s.len());
            }
        }
    }
    false
}

/// Whether `pat` stands in `c` at position `j`.
fn matches_at(c: &Vec<u8>, j: usize, pat: &[u8]) -> (r: bool)
    requires
        j + pat@.len() <= c@.len(),
    ensures
        r == (c@.subrange(j as int, j + pat@.len()) == pat@),
{
    let n = c.len();
    let mut k: usize = 0;
    while k < pat.len()
        invariant
            k <= pat@.len(),
            n == c@.len(),
            j + pat@.len() <= c@.len(),
            forall|m: int| 0 <= m < k ==> c@[j + m] == pat@[m],
        decreases pat@.len() - k,
    {
        if c[j + k] != pat[k] {
            assert(c@.subrange(j as int, j + pat@.len())[k as int] != pat@[k as int]);
            return false;
        }
        k = k + 1;
    }
    assert(c@.subrange(j as int, j + pat@.len()) =~= pat@);
    true
}

/// Appends `c[lo..hi]` to `v`.
fn append_range(v: &mut Vec<u8>, c: &Vec<u8>, lo: usize, hi: usize)
    requires
        lo <= hi <= c@.len(),
    ensures
        final(v)@ == old(v)@ + c@.subrange(lo as int, hi as int),
{
    let mut i: usize = lo;
    while i < hi
        invariant
            lo <= i <= hi,
            hi <= c@.len(),
            v@ == old(v)@ + c@.subrange(lo as int, i as int),
        decreases hi - i,
    {
        v.push(c[i]);
        proof {
            assert(old(v)@ + c@.subrange(lo as int, i + 1) =~= (old(v)@ + c@.subrange(lo as int, i as int)).push(c@[i as int]));
        }
        i = i + 1;
    }
}

/// Adds `path` to `found` unless it is there already.
fn add_unique_path(found: &mut Vec<Vec<u8>>, path: Vec<u8>)
    ensures
        bytes_list(final(found)@) == add_unique(bytes_list(old(found)@), path@),
{
    let mut i: usize = 0;
    while i < found.len()
        invariant
            i <= found@.len(),
            found@ == old(found)@,
            forall|k: int| 0 <= k < i ==> bytes_list(found@)[k] != path@,
        decreases found@.len() - i,
    {
        if same_bytes(&found[i], &path) {
            proof {
                assert(bytes_list(found@)[i as int] == path@);
                assert(bytes_list(found@).contains(path@));
            }
            return;
        }
        i = i + 1;
    }
    let ghost old_list = bytes_list(found@);
    found.push(path);
    proof {
        assert(!old_list.contains(path@));
        assert(bytes_list(found@) =~= old_list.push(path@));
    }
}

/// Whether two lists of bytes are equal.
fn same_bytes(a: &Vec<u8>, b: &Vec<u8>) -> (r: bool)
    ensures
        r == (a@ == b@),
{
    if a.len() != b.len() {
        return false;
    }
    let mut k: usize = 0;
    while k < a.len()
        invariant
            k <= a@.len(),
            a@.len() == b@.len(),
            forall|m: int| 0 <= m < k ==> a@[m] == b@[m],
        decreases a@.len() - k,
    {
        if a[k] != b[k] {
            return false;
        }
        k = k + 1;
    }
    assert(a@ =~= b@);
    true
}

/// A copy of the open element names.
fn copy_tags(tags: &Vec<String>) -> (r: Vec<String>)
    ensures
        r@ == tags@,
{
    let mut out: Vec<String> = Vec::new();
    let mut i: usize = 0;
    while i < tags.len()
        invariant
            i <= tags@.len(),
            out@ == tags@.take(i as int),
        decreases tags@.len() - i,
    {
        out.push(tags[i].clone());
        proof {
            assert(out@ =~= tags@.take(i + 1));
        }
        i = i + 1;
    }
    proof {
        assert(tags@.take(tags@.len() as int) =~= tags@);
    }
    out
}

/// Where the file name of `p` starts: just after its last `/`.
fn file_name_start(p: &[u8]) -> (r: usize)
    ensures
        r <= p@.len(),
        file_name(p@) == p@.subrange(r as int, p@.len() as int),
{
    let mut k: usize = p.len();
    proof {
        assert(p@.take(k as int) =~= p@);
        assert(p@.subrange(k as int, p@.len() as int) =~= Seq::<u8>::empty());
        assert(file_name(p@) =~= file_name(p@.take(k as int)) + p@.subrange(k as int, p@.len() as int));
    }
    while k > 0 && p[k - 1] != 0x2f
        invariant
            k <= p@.len(),
            file_name(p@) == file_name(p@.take(k as int)) + p@.subrange(k as int, p@.len() as int),
        decreases k,
    {
        proof {
            assert(p@.take(k as int).drop_last() =~= p@.take(k - 1));
            assert(p@.take(k as int).last() == p@[k - 1]);
            assert(file_name(p@.take(k as int)) == file_name(p@.take(k - 1)).push(p@[k - 1]));
            assert(file_name(p@.take(k - 1)) + p@.subrange(k - 1, p@.len() as int) =~= file_name(
                p@.take(k - 1),
            ).push(p@[k - 1]) + p@.subrange(k as int, p@.len() as int));
        }
        k = k - 1;
    }
    proof {
        if k == p@.len() {
            assert(p@.take(k as int) =~= p@);
        }
        assert(file_name(p@.take(k as int)) =~= seq![]);
        assert(file_name(p@) =~= p@.subrange(k as int, p@.len() as int));
    }
    k
}

/// Whether the file name of `p` has a stem and the extension `ext`.
fn path_has_extension(p: &[u8], ext: &[u8]) -> (r: bool)
    ensures
        r == has_extension(p@, ext@),
{
    let start = file_name_start(p);
    let ghost n = file_name(p@);
    let plen = p.len();
    let elen = ext.len();
    let len = plen - start;
    if elen >= len || len - elen < 2 {
        return false;
    }
    assert(n[n.len() - ext@.len() - 1] == p@[plen - elen - 1]);
    if p[plen - elen - 1] != 0x2e {
        return false;
    }
    let mut j: usize = 0;
    while j < elen
        invariant
            j <= elen,
            elen == ext@.len(),
            plen == p@.len(),
            start <= plen,
            n == p@.subrange(start as int, plen as int),
            n == file_name(p@),
            len == plen - start,
            len >= elen + 2,
            forall|i: int| 0 <= i < j ==> n[len - elen + i] == ext@[i],
        decreases elen - j,
    {
        assert(n[len - elen + j] == p@[plen - elen + j]);
        if p[plen - elen + j] != ext[j] {
            assert(n.subrange(n.len() - ext@.len(), n.len() as int)[j as int] != ext@[j as int]);
            return false;
        }
        j = j + 1;
    }
    assert(n.subrange(n.len() - ext@.len(), n.len() as int) =~= ext@);
    true
}

/// See `is_font_file`.
fn is_font_path(p: &[u8]) -> (r: bool)
    ensures
        r == is_font_file(p@),
{
    let ttf_ext: [u8; 3] = [0x74, 0x74, 0x66];
    let otf_ext: [u8; 3] = [0x6f, 0x74, 0x66];
    assert(ttf_ext@ =~= ttf());
    assert(otf_ext@ =~= otf());
    path_has_extension(p, ttf_ext.as_slice()) || path_has_extension(p, otf_ext.as_slice())
}

/// See `is_fonts_dir_file`.
fn is_fonts_dir_path(p: &[u8]) -> (r: bool)
    ensures
        r == is_fonts_dir_file(p@),
{
    let start = file_name_start(p);
    let name: [u8; 9] = [0x66, 0x6f, 0x6e, 0x74, 0x73, 0x2e, 0x64, 0x69, 0x72];
    assert(name@ =~= fonts_dir());
    let plen = p.len();
    if plen - start != 9 {
        return false;
    }
    let mut j: usize = 0;
    while j < 9
        invariant
            j <= 9,
            p@.len() == start + 9,
            plen == p@.len(),
            file_name(p@) == p@.subrange(start as int, p@.len() as int),
            name@ == fonts_dir(),
            forall|i: int| 0 <= i < j ==> p@[start + i] == name@[i],
        decreases 9 - j,
    {
        if p[start + j] != name[j] {
            assert(file_name(p@)[j as int] == p@[start + j]);
            assert(file_name(p@)[j as int] != fonts_dir()[j as int]);
            return false;
        }
        j = j + 1;
    }
    assert(file_name(p@) =~= fonts_dir());
    true
}

} // verus!
