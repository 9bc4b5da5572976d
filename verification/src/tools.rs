//! The tool of the model: a shell, and pictures shown from it.
use crate::api::beginning;
use crate::block::{option_view, OutputView, ToolOutput, ToolStatus};
use crate::json::{self, trees, Json, Tree};
use crate::process::Exit;
use crate::sse;
use crate::text;
use vstd::prelude::*;
use vstd::string::StringExecFns;
use vstd::utf8::encode_utf8;

verus! {

/// How many bytes of output are kept at hand.
pub const PREVIEW_LIMIT: usize = 65536;

/// How many of them are the beginning, and how many the end.
pub const HALF: usize = 32768;

/// The largest picture, in bytes.
pub const IMAGE_LIMIT: u64 = 20971520;

/// How many pictures one command may show.
pub const MAX_IMAGES: usize = 8;

/// The last bytes of `bytes`, at most `limit`.
pub open spec fn ending(bytes: Seq<u8>, limit: usize) -> Seq<u8> {
    if bytes.len() <= limit {
        bytes
    } else {
        bytes.skip(bytes.len() - limit)
    }
}

/// `n`, or else the largest count.
pub open spec fn count(n: nat) -> usize {
    if n <= usize::MAX {
        n as usize
    } else {
        usize::MAX
    }
}

/// Output as it is kept: its beginning and its end. What does not fit goes to
/// a log, whose path is `log`.
#[derive(Debug)]
pub struct Capture {
    head: Vec<u8>,
    tail: Vec<u8>,
    total: usize,
    log: Option<String>,
}

/// The model of [`Capture`].
pub struct CaptureView {
    pub head: Seq<u8>,
    pub tail: Seq<u8>,
    pub total: usize,
    pub log: Option<Seq<char>>,
}

impl View for Capture {
    type V = CaptureView;

    closed spec fn view(&self) -> CaptureView {
        CaptureView { head: self.head@, tail: self.tail@, total: self.total, log: option_view(self.log) }
    }
}

/// What is kept of the output `data`.
pub open spec fn captured(data: Seq<u8>, log: Option<Seq<char>>) -> CaptureView {
    let head = beginning(data, HALF);
    CaptureView {
        head,
        tail: ending(data.skip(head.len() as int), HALF),
        total: count(data.len()),
        log,
    }
}

impl CaptureView {
    /// What is kept once more output has come.
    pub open spec fn pushed(self, bytes: Seq<u8>) -> CaptureView {
        let head = beginning(self.head + bytes, HALF);
        CaptureView {
            head,
            tail: ending(self.tail + bytes.skip(head.len() - self.head.len()), HALF),
            total: count((self.total + bytes.len()) as nat),
            log: self.log,
        }
    }

    /// Whether more output makes a log necessary.
    pub open spec fn spills(self, n: nat) -> bool {
        self.log is None && self.total + n > PREVIEW_LIMIT
    }

    /// Whether output was left out.
    pub open spec fn truncated(self) -> bool {
        self.total > PREVIEW_LIMIT
    }

    /// The bytes that are shown.
    pub open spec fn shown(self) -> Seq<u8> {
        if self.truncated() {
            self.head + encode_utf8(omission((self.total - PREVIEW_LIMIT) as nat)) + self.tail
        } else {
            self.head + self.tail
        }
    }

    /// The output as it is shown.
    pub open spec fn output(self) -> OutputView {
        OutputView { text: sse::lossy_text(self.shown()), log: self.log, truncated: self.truncated() }
    }
}

/// The words for `n` bytes that were left out.
pub open spec fn omission(n: nat) -> Seq<char> {
    "\n[… "@ + text::decimal(n) + " bytes omitted …]\n"@
}

impl Default for Capture {
    fn default() -> (r: Capture)
        ensures
            r.wf(),
            r@ == captured(seq![], None),
    {
        let r = Capture { head: Vec::new(), tail: Vec::new(), total: 0, log: None };
        assert(r@.head =~= beginning(seq![], HALF));
        assert(r@.tail =~= captured(seq![], None).tail);
        r
    }
}

impl Capture {
    /// What is kept at hand is bounded.
    pub open spec fn wf(&self) -> bool {
        self@.head.len() <= HALF && self@.tail.len() <= HALF
    }

    /// How many bytes came in.
    pub fn total(&self) -> (r: usize)
        ensures
            r == self@.total,
    {
        self.total
    }

    /// Whether `bytes` make a log necessary.
    pub fn spills(&self, bytes: &[u8]) -> (r: bool)
        ensures
            r == self@.spills(bytes@.len()),
    {
        self.log.is_none() && self.total.saturating_add(bytes.len()) > PREVIEW_LIMIT
    }

    /// What is kept at hand, to begin a log with.
    pub fn backlog(&self) -> (r: Vec<u8>)
        ensures
            r@ == self@.head + self@.tail,
    {
        let mut all = self.head.clone();
        all.extend_from_slice(&self.tail);
        assert(all@ =~= self@.head + self@.tail);
        all
    }

    /// Notes that there is a log now.
    pub fn logged(&mut self, path: String)
        requires
            old(self).wf(),
        ensures
            final(self).wf(),
            final(self)@ == (CaptureView { log: Some(path@), ..old(self)@ }),
    {
        self.log = Some(path);
    }

    /// Takes in more output.
    pub fn push(&mut self, bytes: &[u8])
        requires
            old(self).wf(),
        ensures
            final(self).wf(),
            final(self)@ == old(self)@.pushed(bytes@),
    {
        let ghost head = self.head@;
        let ghost tail = self.tail@;
        self.total = self.total.saturating_add(bytes.len());
        let room = HALF - self.head.len();
        let n = if bytes.len() < room {
            bytes.len()
        } else {
            room
        };
        self.head.extend_from_slice(vstd::slice::slice_subrange(bytes, 0, n));
        assert(self.head@ =~= beginning(head + bytes@, HALF));
        let rest = vstd::slice::slice_subrange(bytes, n, bytes.len());
        assert(rest@ =~= bytes@.skip(n as int));
        if rest.len() >= HALF {
            let end = vstd::slice::slice_subrange(rest, rest.len() - HALF, rest.len());
            self.tail = vstd::slice::slice_to_vec(end);
        } else {
            let excess = (self.tail.len() + rest.len()).saturating_sub(HALF);
            let mut kept = vstd::slice::slice_to_vec(
                vstd::slice::slice_subrange(self.tail.as_slice(), excess, self.tail.len()),
            );
            kept.extend_from_slice(rest);
            self.tail = kept;
        }
        assert(self.tail@ =~= ending(tail + rest@, HALF));
    }

    /// The bytes that are shown.
    pub fn shown(&self) -> (r: Vec<u8>)
        ensures
            r@ == self@.shown(),
    {
        let mut bytes = self.head.clone();
        if self.total > PREVIEW_LIMIT {
            let mut words = text::cat("\n[… ", &text::string(&text::number((self.total - PREVIEW_LIMIT) as u128)));
            words.append(" bytes omitted …]\n");
            bytes.extend_from_slice(words.as_str().as_bytes());
        }
        bytes.extend_from_slice(&self.tail);
        assert(bytes@ =~= self@.shown());
        bytes
    }

    /// The output as it is shown.
    pub fn preview(&self) -> (r: ToolOutput)
        ensures
            r@ == self@.output(),
    {
        ToolOutput {
            text: sse::lossy(&self.shown()),
            log: crate::block::copy_option(&self.log),
            truncated: self.total > PREVIEW_LIMIT,
        }
    }
}

/// What is kept depends on the output alone, not on the chunks it came in.
pub proof fn law_capture_ignores_chunks(data: Seq<u8>, bytes: Seq<u8>, log: Option<Seq<char>>)
    ensures
        captured(data, log).pushed(bytes) == captured(data + bytes, log),
{
    let a = captured(data, log).pushed(bytes);
    let b = captured(data + bytes, log);
    assert(a.head =~= b.head);
    let h = captured(data, log).head;
    assert((data + bytes).skip(b.head.len() as int) =~= data.skip(h.len() as int) + bytes.skip(
        b.head.len() - h.len(),
    ));
    assert(a.tail =~= b.tail);
}

/// As long as no log is necessary, everything is at hand: a log that begins
/// with it holds all of the output.
pub proof fn law_log_begins_complete(data: Seq<u8>, log: Option<Seq<char>>)
    requires
        data.len() <= PREVIEW_LIMIT,
    ensures
        captured(data, log).head + captured(data, log).tail == data,
        captured(data, log).shown() == data,
        !captured(data, log).truncated(),
{
    let c = captured(data, log);
    assert(c.head + c.tail =~= data);
}

/// What a command came to.
#[derive(Debug)]
pub struct BashResult {
    pub output: ToolOutput,
    pub status: ToolStatus,
    pub images: Vec<Json>,
}

/// Whether output that was not shown yet is to be shown: at once, and then
/// every tenth of a second. `waited` is in nanoseconds.
pub fn publishes(total: usize, published: usize, waited: u128) -> (r: bool)
    ensures
        r == (total != published && (published == 0 || waited >= 100_000_000)),
{
    total != published && (published == 0 || waited >= 100_000_000)
}

/// The milliseconds that a command may take, of those asked for.
pub fn timeout(asked: Option<u64>) -> (r: Result<u64, String>)
    ensures
        asked is None ==> r == Ok::<u64, String>(120_000),
        asked is Some && asked->0 > 0 ==> r == Ok::<u64, String>(asked->0),
        asked == Some(0u64) ==> r is Err && r->Err_0@ == "timeoutMs must be positive"@,
{
    let ms: u64 = asked.unwrap_or(120_000);
    if ms == 0 {
        Err("timeoutMs must be positive".to_owned())
    } else {
        Ok(ms)
    }
}

/// The status of a command that has ended.
pub open spec fn status_of(exit: Exit, timeout: u64) -> ToolStatus {
    if exit.cancelled {
        ToolStatus::Cancelled
    } else if exit.timed_out {
        ToolStatus::TimedOut(timeout)
    } else {
        ToolStatus::Exited(exit.code)
    }
}

/// The digits of base64.
pub open spec fn base64_digit(n: int) -> char {
    "ABCDEFGHIJKLMNOPQRSTUVWXYZabcdefghijklmnopqrstuvwxyz0123456789+/"@[n]
}

/// `bytes` in base64, with padding.
pub open spec fn base64_text(bytes: Seq<u8>) -> Seq<char>
    decreases bytes.len(),
{
    if bytes.len() == 0 {
        seq![]
    } else {
        let a = bytes[0] as int;
        let b = if bytes.len() > 1 {
            bytes[1] as int
        } else {
            0
        };
        let c = if bytes.len() > 2 {
            bytes[2] as int
        } else {
            0
        };
        let group = seq![
            base64_digit(a / 4),
            base64_digit(a % 4 * 16 + b / 16),
            if bytes.len() > 1 {
                base64_digit(b % 16 * 4 + c / 64)
            } else {
                '='
            },
            if bytes.len() > 2 {
                base64_digit(c % 64)
            } else {
                '='
            },
        ];
        if bytes.len() <= 3 {
            group
        } else {
            group + base64_text(bytes.skip(3))
        }
    }
}

/// `Engine::encode` of `base64::engine::general_purpose::STANDARD`: base64 in
/// the standard alphabet, padded with `=` to whole groups. The text must fit in
/// memory.
#[verifier::external_body]
pub(crate) fn base64(bytes: &[u8]) -> (r: String)
    requires
        4 * ((bytes@.len() + 2) / 3) <= isize::MAX,
    ensures
        r@ == base64_text(bytes@),
{
    base64::Engine::encode(&base64::engine::general_purpose::STANDARD, bytes)
}

/// The type of a picture, told by how it begins.
pub open spec fn mime_type(bytes: Seq<u8>) -> Option<Seq<char>> {
    if png().is_prefix_of(bytes) {
        Some("image/png"@)
    } else if jpeg().is_prefix_of(bytes) {
        Some("image/jpeg"@)
    } else if gif('7').is_prefix_of(bytes) || gif('9').is_prefix_of(bytes) {
        Some("image/gif"@)
    } else if riff().is_prefix_of(bytes) && bytes.len() >= 12 && bytes.subrange(8, 12) == webp() {
        Some("image/webp"@)
    } else {
        None
    }
}

/// How a PNG begins.
pub open spec fn png() -> Seq<u8> {
    seq![0x89, 0x50, 0x4e, 0x47, 0x0d, 0x0a, 0x1a, 0x0a]
}

/// How a JPEG begins.
pub open spec fn jpeg() -> Seq<u8> {
    seq![0xff, 0xd8, 0xff]
}

/// How a GIF begins: `GIF87a` or `GIF89a`.
pub open spec fn gif(version: char) -> Seq<u8> {
    seq![0x47, 0x49, 0x46, 0x38, version as u8, 0x61]
}

/// How a container of a WebP begins.
pub open spec fn riff() -> Seq<u8> {
    seq![0x52, 0x49, 0x46, 0x46]
}

/// What a container of a WebP is marked with.
pub open spec fn webp() -> Seq<u8> {
    seq![0x57, 0x45, 0x42, 0x50]
}

/// Whether `part` stands in `bytes` at `from`.
fn stands_at(bytes: &[u8], part: &[u8], from: usize) -> (r: bool)
    requires
        from <= 8,
        part@.len() <= 8,
    ensures
        r == (from + part@.len() <= bytes@.len() && bytes@.subrange(from as int, from + part@.len()) == part@),
{
    if bytes.len() < from + part.len() {
        return false;
    }
    let ghost here = bytes@.subrange(from as int, from + part@.len());
    let mut i: usize = 0;
    while i < part.len()
        invariant
            i <= part@.len() <= 8,
            from <= 8,
            from + part@.len() <= bytes@.len(),
            here == bytes@.subrange(from as int, from + part@.len()),
            forall|k: int| 0 <= k < i ==> #[trigger] here[k] == part@[k],
        decreases part@.len() - i,
    {
        if bytes[from + i] != part[i] {
            assert(here[i as int] != part@[i as int]);
            return false;
        }
        i += 1;
    }
    assert(here =~= part@);
    true
}

/// Whether `bytes` begin with `part`.
fn begins(bytes: &[u8], part: &[u8]) -> (r: bool)
    requires
        part@.len() <= 8,
    ensures
        r == part@.is_prefix_of(bytes@),
{
    let r = stands_at(bytes, part, 0);
    proof {
        if part@.len() <= bytes@.len() {
            if r {
                assert(part@ =~= bytes@.subrange(0, part@.len() as int));
            }
            if part@.is_prefix_of(bytes@) {
                assert(part@ =~= bytes@.subrange(0, part@.len() as int));
            }
        }
    }
    r
}

/// The type of a picture, told by how it begins.
pub fn mime(bytes: &[u8]) -> (r: Option<&'static str>)
    ensures
        r is Some <==> mime_type(bytes@) is Some,
        r matches Some(m) ==> mime_type(bytes@) == Some(m@),
{
    let png_mark: [u8; 8] = [0x89, 0x50, 0x4e, 0x47, 0x0d, 0x0a, 0x1a, 0x0a];
    let jpeg_mark: [u8; 3] = [0xff, 0xd8, 0xff];
    let gif7_mark: [u8; 6] = [0x47, 0x49, 0x46, 0x38, 0x37, 0x61];
    let gif9_mark: [u8; 6] = [0x47, 0x49, 0x46, 0x38, 0x39, 0x61];
    let riff_mark: [u8; 4] = [0x52, 0x49, 0x46, 0x46];
    let webp_mark: [u8; 4] = [0x57, 0x45, 0x42, 0x50];
    proof {
        assert(png_mark@ =~= png());
        assert(jpeg_mark@ =~= jpeg());
        assert(gif7_mark@ =~= gif('7'));
        assert(gif9_mark@ =~= gif('9'));
        assert(riff_mark@ =~= riff());
        assert(webp_mark@ =~= webp());
    }
    if begins(bytes, &png_mark) {
        Some("image/png")
    } else if begins(bytes, &jpeg_mark) {
        Some("image/jpeg")
    } else if begins(bytes, &gif7_mark) || begins(bytes, &gif9_mark) {
        Some("image/gif")
    } else if begins(bytes, &riff_mark) && stands_at(bytes, &webp_mark, 8) {
        Some("image/webp")
    } else {
        None
    }
}

/// The part of a message that shows a picture.
pub open spec fn image_part(mime: Seq<char>, bytes: Seq<u8>) -> Tree {
    Tree::Object(
        seq![
            ("type"@, Tree::Text("input_image"@)),
            ("image_url"@, Tree::Text("data:"@ + mime + ";base64,"@ + base64_text(bytes))),
        ],
    )
}

/// Whether a file of `len` bytes can be shown.
pub fn image_fits(len: u64) -> (r: Result<(), String>)
    ensures
        len <= IMAGE_LIMIT ==> r is Ok,
        len > IMAGE_LIMIT ==> r is Err && r->Err_0@ == "Image exceeds 20 MiB"@,
{
    if len > IMAGE_LIMIT {
        Err("Image exceeds 20 MiB".to_owned())
    } else {
        Ok(())
    }
}

/// The part of a message that shows the picture in `bytes`.
pub fn image(bytes: &[u8]) -> (r: Result<Json, String>)
    ensures
        bytes@.len() > IMAGE_LIMIT ==> r is Err && r->Err_0@ == "Image exceeds 20 MiB"@,
        bytes@.len() <= IMAGE_LIMIT && mime_type(bytes@) is None ==> r is Err && r->Err_0@
            == "Expected PNG, JPEG, GIF or WebP"@,
        bytes@.len() <= IMAGE_LIMIT && mime_type(bytes@) is Some ==> r is Ok && r->Ok_0@ == image_part(
            mime_type(bytes@)->0,
            bytes@,
        ),
{
    if bytes.len() as u64 > IMAGE_LIMIT {
        return Err("Image exceeds 20 MiB".to_owned());
    }
    match mime(bytes) {
        None => Err("Expected PNG, JPEG, GIF or WebP".to_owned()),
        Some(m) => {
            let mut url = text::cat("data:", m);
            url.append(";base64,");
            url.append(&base64(bytes));
            let fields = vec![
                ("type".to_owned(), Json::Text("input_image".to_owned())),
                ("image_url".to_owned(), Json::Text(url)),
            ];
            assert(json::field_trees(fields@) =~= image_part(m@, bytes@)->Object_0);
            Ok(json::object(fields))
        },
    }
}

/// The message that shows a picture to the model.
pub open spec fn image_item(path: Seq<char>, part: Tree) -> Tree {
    Tree::Object(
        seq![
            ("role"@, Tree::Text("user"@)),
            (
                "content"@,
                Tree::Array(
                    seq![
                        Tree::Object(
                            seq![
                                ("type"@, Tree::Text("input_text"@)),
                                ("text"@, Tree::Text("view_image: "@ + path)),
                            ],
                        ),
                        part,
                    ],
                ),
            ),
        ],
    )
}

fn image_message(path: &str, part: Json) -> (r: Json)
    ensures
        r@ == image_item(path@, part@),
{
    let label = vec![
        ("type".to_owned(), Json::Text("input_text".to_owned())),
        ("text".to_owned(), Json::Text(text::cat("view_image: ", path))),
    ];
    let ghost want = image_item(path@, part@)->Object_0;
    assert(json::field_trees(label@) =~= want[1].1->Array_0[0]->Object_0);
    let content = vec![json::object(label), part];
    assert(trees(content@) =~= want[1].1->Array_0);
    let fields = vec![
        ("role".to_owned(), Json::Text("user".to_owned())),
        ("content".to_owned(), json::array(content)),
    ];
    assert(json::field_trees(fields@) =~= want);
    json::object(fields)
}

/// A picture that a command asked to show: its path and the part that shows
/// it, or why it cannot be shown.
pub open spec fn found_view(found: Result<(String, Json), String>) -> Result<(Seq<char>, Tree), Seq<char>> {
    match found {
        Ok((path, part)) => Ok((path@, part@)),
        Err(e) => Err(e@),
    }
}

/// What is said of the pictures that cannot be shown.
pub open spec fn complaints(found: Seq<Result<(String, Json), String>>) -> Seq<char>
    decreases found.len(),
{
    if found.len() == 0 {
        seq![]
    } else {
        complaints(found.drop_last()) + (match found_view(found.last()) {
            Ok(_) => seq![],
            Err(e) => "\n[view_image: "@ + e + "]"@,
        })
    }
}

/// The messages that show the pictures.
pub open spec fn pictures(found: Seq<Result<(String, Json), String>>) -> Seq<Tree>
    decreases found.len(),
{
    if found.len() == 0 {
        seq![]
    } else {
        match found_view(found.last()) {
            Ok((path, part)) => pictures(found.drop_last()).push(image_item(path, part)),
            Err(_) => pictures(found.drop_last()),
        }
    }
}

/// What a command came to: its output with a word on each picture that cannot
/// be shown, its status, and the messages that show its pictures.
pub fn bash(output: ToolOutput, exit: Exit, timeout: u64, found: Vec<Result<(String, Json), String>>) -> (r: BashResult)
    ensures
        r.output@ == (OutputView { text: output@.text + complaints(found@), ..output@ }),
        r.status == status_of(exit, timeout),
        trees(r.images@) == pictures(found@),
{
    let status = if exit.cancelled {
        ToolStatus::Cancelled
    } else if exit.timed_out {
        ToolStatus::TimedOut(timeout)
    } else {
        ToolStatus::Exited(exit.code)
    };
    let ghost all = found@;
    let mut words = output.text;
    let mut images: Vec<Json> = Vec::new();
    proof {
        assert(words@ + complaints(all.take(0)) =~= words@);
        assert(trees(images@) =~= pictures(all.take(0)));
    }
    let ghost before = words@;
    for one in it: found
        invariant
            it.seq() == all,
            words@ == before + complaints(all.take(it.index())),
            trees(images@) == pictures(all.take(it.index())),
    {
        let ghost k = it.index();
        let ghost held = images@;
        proof {
            assert(all.take(k + 1).drop_last() =~= all.take(k));
        }
        match one {
            Ok((path, part)) => {
                let message = image_message(&path, part);
                images.push(message);
                proof {
                    assert(trees(images@) =~= trees(held).push(message@));
                    assert(words@ =~= before + complaints(all.take(k + 1)));
                }
            },
            Err(e) => {
                words.append("\n[view_image: ");
                words.append(&e);
                words.append("]");
                assert(words@ =~= before + complaints(all.take(k + 1)));
            },
        }
    }
    assert(all.take(all.len() as int) =~= all);
    BashResult { output: ToolOutput { text: words, log: output.log, truncated: output.truncated }, status, images }
}

/// How many bytes are read of what a command asks to show.
pub const MANIFEST_LIMIT: u64 = 65536;

/// What `serde_json::from_str` makes of a text that is to hold a path: the path,
/// or else the words of the error.
pub uninterp spec fn json_path(source: Seq<char>) -> Result<Seq<char>, Seq<char>>;

/// `serde_json::from_str` for a path. Its result depends on `source` alone, and
/// the JSON string for a text gives that text back.
#[verifier::external_body]
fn parse_path(source: &str) -> (r: Result<String, String>)
    ensures
        match r {
            Ok(path) => json_path(source@) == Ok::<Seq<char>, Seq<char>>(path@),
            Err(e) => json_path(source@) == Err::<Seq<char>, Seq<char>>(e@),
        },
        forall|path: Seq<char>| source@ == #[trigger] json::quoted(path) ==> r is Ok && r->Ok_0@ == path,
{
    match serde_json::from_str::<std::path::PathBuf>(source) {
        Ok(path) => Ok(path.to_string_lossy().into_owned()),
        Err(e) => Err(e.to_string()),
    }
}

/// A line that was read, or why it was not.
pub open spec fn words_of(r: Result<String, String>) -> Result<Seq<char>, Seq<char>> {
    match r {
        Ok(s) => Ok(s@),
        Err(e) => Err(e@),
    }
}

/// The path that a line asks to show.
pub open spec fn asked_path(line: Result<Seq<char>, Seq<char>>) -> Result<Seq<char>, Seq<char>> {
    match line {
        Ok(line) => json_path(line),
        Err(e) => Err(e),
    }
}

/// The paths of the pictures that a command asked to show, line by line: no more
/// than a few of them. A line as [`view_image`] writes it gives its path back.
pub fn requested(lines: Vec<Result<String, String>>) -> (r: Vec<Result<String, String>>)
    ensures
        r@.len() == (if lines@.len() <= MAX_IMAGES {
            lines@.len()
        } else {
            MAX_IMAGES as nat
        }),
        forall|k: int| 0 <= k < r@.len() ==> words_of(#[trigger] r@[k]) == asked_path(words_of(lines@[k])),
        forall|k: int, path: Seq<char>|
            0 <= k < r@.len() && words_of(lines@[k]) == Ok::<Seq<char>, Seq<char>>(#[trigger] json::quoted(path))
                ==> words_of(#[trigger] r@[k]) == Ok::<Seq<char>, Seq<char>>(path),
{
    let mut out: Vec<Result<String, String>> = Vec::new();
    let mut i: usize = 0;
    while i < lines.len() && i < MAX_IMAGES
        invariant
            i <= lines@.len(),
            i <= MAX_IMAGES,
            out@.len() == i,
            forall|k: int| 0 <= k < i ==> words_of(#[trigger] out@[k]) == asked_path(words_of(lines@[k])),
            forall|k: int, path: Seq<char>|
                0 <= k < i && words_of(lines@[k]) == Ok::<Seq<char>, Seq<char>>(#[trigger] json::quoted(path))
                    ==> words_of(#[trigger] out@[k]) == Ok::<Seq<char>, Seq<char>>(path),
        decreases lines@.len() - i,
    {
        let path = match &lines[i] {
            Ok(line) => parse_path(line),
            Err(e) => Err(e.clone()),
        };
        out.push(path);
        i += 1;
    }
    out
}

/// The line that asks for a picture to be shown.
pub fn view_image(path: &str) -> (r: String)
    ensures
        r@ == json::quoted(path@) + "\n"@,
{
    text::cat(&json::quote(path), "\n")
}

/// Of output that is too long both ends are shown, as they came, around a word on
/// how much is missing between them; nothing of either is lost. Output that is
/// not too long is shown whole.
pub proof fn law_long_output_keeps_both_ends(data: Seq<u8>, log: Option<Seq<char>>)
    requires
        data.len() <= usize::MAX,
    ensures
        data.len() <= 65536 ==> captured(data, log).shown() == data && !captured(data, log).output().truncated,
        data.len() > 65536 ==> {
            let c = captured(data, log);
            &&& c.shown() == data.take(32768) + encode_utf8(
                "\n[… "@ + text::decimal((data.len() - 65536) as nat) + " bytes omitted …]\n"@,
            ) + data.skip(data.len() - 32768)
            &&& c.output().truncated
        },
        captured(data, log).output().log == log,
        captured(data, log).output().text == sse::lossy_text(captured(data, log).shown()),
        captured(data, log).total == data.len(),
        forall|n: nat| #[trigger] captured(data, log).spills(n) <==> log is None && data.len() + n > 65536,
{
    let c = captured(data, log);
    if data.len() <= 65536 {
        law_log_begins_complete(data, log);
    } else {
        assert(c.head =~= data.take(32768));
        assert(c.tail =~= data.skip(data.len() - 32768));
    }
}

/// How a command ended: cancelled by the user before anything else, then out of
/// time, and else by itself with its code.
pub proof fn law_status_tells_how_it_ended(exit: Exit, timeout: u64)
    ensures
        exit.cancelled ==> status_of(exit, timeout) == ToolStatus::Cancelled,
        !exit.cancelled && exit.timed_out ==> status_of(exit, timeout) == ToolStatus::TimedOut(timeout),
        !exit.cancelled && !exit.timed_out ==> status_of(exit, timeout) == ToolStatus::Exited(exit.code),
{
}

/// Pictures are told by how they begin, and nothing else is taken for one.
pub proof fn law_pictures_are_told_by_their_beginning(rest: Seq<u8>, size: Seq<u8>)
    requires
        size.len() == 4,
    ensures
        mime_type(seq![0x89u8, 0x50, 0x4e, 0x47, 0x0d, 0x0a, 0x1a, 0x0a] + rest) == Some("image/png"@),
        mime_type(seq![0xffu8, 0xd8, 0xff] + rest) == Some("image/jpeg"@),
        mime_type(seq![0x47u8, 0x49, 0x46, 0x38, 0x37, 0x61] + rest) == Some("image/gif"@),
        mime_type(seq![0x47u8, 0x49, 0x46, 0x38, 0x39, 0x61] + rest) == Some("image/gif"@),
        mime_type(seq![0x52u8, 0x49, 0x46, 0x46] + size + seq![0x57u8, 0x45, 0x42, 0x50] + rest) == Some(
            "image/webp"@,
        ),
        rest.len() == 0 || (rest[0] != 0x89 && rest[0] != 0xff && rest[0] != 0x47 && rest[0] != 0x52) ==> mime_type(rest)
            is None,
{
    let a = seq![0x89u8, 0x50, 0x4e, 0x47, 0x0d, 0x0a, 0x1a, 0x0a] + rest;
    assert(a.take(8) =~= png());
    assert(png().is_prefix_of(a));
    let b = seq![0xffu8, 0xd8, 0xff] + rest;
    assert(b.take(3) =~= jpeg());
    assert(jpeg().is_prefix_of(b));
    assert(b[0] == 0xff);
    let c = seq![0x47u8, 0x49, 0x46, 0x38, 0x37, 0x61] + rest;
    assert(c.take(6) =~= gif('7'));
    assert(gif('7').is_prefix_of(c));
    assert(c[0] == 0x47);
    let d = seq![0x47u8, 0x49, 0x46, 0x38, 0x39, 0x61] + rest;
    assert(d.take(6) =~= gif('9'));
    assert(gif('9').is_prefix_of(d));
    assert(d[0] == 0x47);
    let e = seq![0x52u8, 0x49, 0x46, 0x46] + size + seq![0x57u8, 0x45, 0x42, 0x50] + rest;
    assert(e.take(4) =~= riff());
    assert(riff().is_prefix_of(e));
    assert(e.subrange(8, 12) =~= webp());
    assert(e[0] == 0x52);
    lemma_first_byte(b);
    lemma_first_byte(c);
    lemma_first_byte(d);
    lemma_first_byte(e);
    lemma_first_byte(rest);
}

proof fn lemma_first_byte(bytes: Seq<u8>)
    ensures
        png().is_prefix_of(bytes) ==> bytes.len() > 0 && bytes[0] == 0x89,
        jpeg().is_prefix_of(bytes) ==> bytes.len() > 0 && bytes[0] == 0xff,
        gif('7').is_prefix_of(bytes) ==> bytes.len() > 0 && bytes[0] == 0x47,
        gif('9').is_prefix_of(bytes) ==> bytes.len() > 0 && bytes[0] == 0x47,
        riff().is_prefix_of(bytes) ==> bytes.len() > 0 && bytes[0] == 0x52,
{
    if png().is_prefix_of(bytes) {
        assert(png()[0] == 0x89);
        assert(bytes.take(8)[0] == bytes[0]);
    }
    if jpeg().is_prefix_of(bytes) {
        assert(jpeg()[0] == 0xff);
        assert(bytes.take(3)[0] == bytes[0]);
    }
    if gif('7').is_prefix_of(bytes) {
        assert(gif('7')[0] == 0x47);
        assert(bytes.take(6)[0] == bytes[0]);
    }
    if gif('9').is_prefix_of(bytes) {
        assert(gif('9')[0] == 0x47);
        assert(bytes.take(6)[0] == bytes[0]);
    }
    if riff().is_prefix_of(bytes) {
        assert(riff()[0] == 0x52);
        assert(bytes.take(4)[0] == bytes[0]);
    }
}

/// Every picture that a command asks for is shown in a message of its own, in
/// their order, or its failure is told behind the output; neither is lost.
pub proof fn law_every_picture_is_shown_or_told(
    found: Seq<Result<(String, Json), String>>,
    one: Result<(String, Json), String>,
)
    ensures
        pictures(Seq::empty()) == Seq::<Tree>::empty(),
        complaints(Seq::empty()) == Seq::<char>::empty(),
        one matches Ok((path, part)) ==> pictures(found.push(one)) == pictures(found).push(image_item(path@, part@))
            && complaints(found.push(one)) == complaints(found),
        one matches Err(e) ==> pictures(found.push(one)) == pictures(found) && complaints(found.push(one)) == complaints(
            found,
        ) + "\n[view_image: "@ + e@ + "]"@,
{
    assert(found.push(one).drop_last() =~= found);
    match one {
        Ok(_) => {
            assert(complaints(found.push(one)) =~= complaints(found));
        },
        Err(e) => {
            assert(complaints(found.push(one)) =~= complaints(found) + "\n[view_image: "@ + e@ + "]"@);
        },
    }
}

/// A picture is shown to the model as a message of the user that names its path
/// and holds its bytes, with their type.
pub proof fn law_picture_messages(path: Seq<char>, mime: Seq<char>, bytes: Seq<u8>)
    ensures
        image_part(mime, bytes) == Tree::Object(
            seq![
                ("type"@, Tree::Text("input_image"@)),
                ("image_url"@, Tree::Text("data:"@ + mime + ";base64,"@ + base64_text(bytes))),
            ],
        ),
        image_item(path, image_part(mime, bytes)) == Tree::Object(
            seq![
                ("role"@, Tree::Text("user"@)),
                (
                    "content"@,
                    Tree::Array(
                        seq![
                            Tree::Object(
                                seq![
                                    ("type"@, Tree::Text("input_text"@)),
                                    ("text"@, Tree::Text("view_image: "@ + path)),
                                ],
                            ),
                            image_part(mime, bytes),
                        ],
                    ),
                ),
            ],
        ),
        IMAGE_LIMIT == 20 * 1024 * 1024,
        MAX_IMAGES == 8,
{
}

/// What a command asks to show is read up to sixty-four kibibytes; a line that
/// could not be read asks for nothing, and says why.
pub proof fn law_requests_are_read_up_to_a_limit(line: Seq<char>, e: Seq<char>)
    ensures
        MANIFEST_LIMIT == 64 * 1024,
        asked_path(Ok(line)) == json_path(line),
        asked_path(Err(e)) == Err::<Seq<char>, Seq<char>>(e),
{
}

} // verus!
