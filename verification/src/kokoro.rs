//! Installing the Kokoro speech model and its voices: the files to fetch,
//! which voices the model repository offers, and the bookkeeping of a
//! download in progress that the application drives.
use vstd::prelude::*;

use crate::asr::{owned, strings_view};
use crate::text::{push_str, str_chars, trim_chars, trim_spec};

verus! {

/// The repository files are fetched from.
pub const HF_RESOLVE_BASE: &'static str =
    "https://huggingface.co/onnx-community/Kokoro-82M-v1.0-ONNX/resolve/main";

/// Progress of the current or last download, as shown to the user.
pub struct KokoroDownloadProgress {
    pub downloaded: u64,
    pub total: u64,
    pub status: String,
    pub current_file_index: usize,
    pub total_files: usize,
    pub current_file_name: String,
    pub asset_root: Option<String>,
    pub install_kind: Option<String>,
    pub variant: Option<String>,
    pub voice_id: Option<String>,
}

/// A voice the repository offers, and whether it is installed.
pub struct KokoroAvailableVoice {
    pub id: String,
    pub installed: bool,
}

/// Precision of the Kokoro model to install.
#[derive(Clone, Copy, Debug, PartialEq, Eq, Structural)]
pub enum KokoroModelVariant {
    Fp32,
    Fp16,
    Int8,
}

/// No download: nothing counted, status `idle`.
pub open spec fn is_idle_progress(p: KokoroDownloadProgress, status: Seq<char>) -> bool {
    &&& p.downloaded == 0
    &&& p.total == 0
    &&& p.status@ == status
    &&& p.current_file_index == 0
    &&& p.total_files == 0
    &&& p.current_file_name@.len() == 0
    &&& p.asset_root is None
    &&& p.install_kind is None
    &&& p.variant is None
    &&& p.voice_id is None
}

pub fn idle_progress() -> (r: KokoroDownloadProgress)
    ensures
        is_idle_progress(r, "idle"@),
{
    KokoroDownloadProgress {
        downloaded: 0,
        total: 0,
        status: owned("idle"),
        current_file_index: 0,
        total_files: 0,
        current_file_name: String::new(),
        asset_root: None,
        install_kind: None,
        variant: None,
        voice_id: None,
    }
}

fn progress_with_status(status: &str) -> (r: KokoroDownloadProgress)
    ensures
        is_idle_progress(r, status@),
{
    KokoroDownloadProgress {
        downloaded: 0,
        total: 0,
        status: owned(status),
        current_file_index: 0,
        total_files: 0,
        current_file_name: String::new(),
        asset_root: None,
        install_kind: None,
        variant: None,
        voice_id: None,
    }
}

/// A file to fetch: its path in the repository, where it goes under the
/// asset root, and the name progress shows for it.
pub struct DownloadFileSpec {
    pub remote_path: String,
    pub local_relative_path: String,
    pub progress_name: String,
}

pub open spec fn file_spec_view(f: DownloadFileSpec) -> (Seq<char>, Seq<char>, Seq<char>) {
    (f.remote_path@, f.local_relative_path@, f.progress_name@)
}

pub open spec fn plan_view(p: Seq<DownloadFileSpec>) -> Seq<(Seq<char>, Seq<char>, Seq<char>)> {
    p.map_values(|f: DownloadFileSpec| file_spec_view(f))
}

/// The model file of each precision.
pub open spec fn model_filename(variant: KokoroModelVariant) -> Seq<char> {
    match variant {
        KokoroModelVariant::Fp32 => "model.onnx"@,
        KokoroModelVariant::Fp16 => "model_fp16.onnx"@,
        KokoroModelVariant::Int8 => "model_quantized.onnx"@,
    }
}

/// A file kept at the same path locally as in the repository.
pub open spec fn same_path(path: Seq<char>) -> (Seq<char>, Seq<char>, Seq<char>) {
    (path, path, path)
}

/// The configuration, the tokenizer and its configuration, then the model.
pub open spec fn model_plan_spec(variant: KokoroModelVariant) -> Seq<(Seq<char>, Seq<char>, Seq<char>)> {
    seq![
        same_path("config.json"@),
        same_path("tokenizer.json"@),
        same_path("tokenizer_config.json"@),
        ("onnx/"@ + model_filename(variant), "onnx/"@ + model_filename(variant), model_filename(variant)),
    ]
}

fn same_path_file(path: &str) -> (r: DownloadFileSpec)
    ensures
        file_spec_view(r) == same_path(path@),
{
    DownloadFileSpec { remote_path: owned(path), local_relative_path: owned(path), progress_name: owned(path) }
}

fn concat(a: &str, b: &str) -> (r: String)
    ensures
        r@ == a@ + b@,
{
    let mut s = owned(a);
    push_str(&mut s, b);
    s
}

pub fn model_download_plan(variant: KokoroModelVariant) -> (r: Vec<DownloadFileSpec>)
    ensures
        plan_view(r@) == model_plan_spec(variant),
{
    let model_filename: &str = match variant {
        KokoroModelVariant::Fp32 => "model.onnx",
        KokoroModelVariant::Fp16 => "model_fp16.onnx",
        KokoroModelVariant::Int8 => "model_quantized.onnx",
    };
    let mut plan: Vec<DownloadFileSpec> = Vec::new();
    plan.push(same_path_file("config.json"));
    plan.push(same_path_file("tokenizer.json"));
    plan.push(same_path_file("tokenizer_config.json"));
    plan.push(
        DownloadFileSpec {
            remote_path: concat("onnx/", model_filename),
            local_relative_path: concat("onnx/", model_filename),
            progress_name: owned(model_filename),
        },
    );
    assert(plan_view(plan@) =~= model_plan_spec(variant));
    plan
}

/// A character allowed in a voice id: an ASCII letter or digit, `_` or `-`.
pub open spec fn voice_id_char(c: char) -> bool {
    ('a' <= c && c <= 'z') || ('A' <= c && c <= 'Z') || ('0' <= c && c <= '9') || c == '_' || c
        == '-'
}

/// A voice id is not blank and is made of allowed characters only.
pub open spec fn valid_voice_id(s: Seq<char>) -> bool {
    trim_spec(s).len() > 0 && forall|k: int| 0 <= k < s.len() ==> voice_id_char(#[trigger] s[k])
}

pub fn is_valid_voice_id(value: &str) -> (r: bool)
    ensures
        r == valid_voice_id(value@),
{
    let chars = str_chars(value);
    let trimmed = trim_chars(chars.as_slice());
    if trimmed.len() == 0 {
        return false;
    }
    let mut i: usize = 0;
    while i < chars.len()
        invariant
            i <= chars.len(),
            chars@ == value@,
            forall|k: int| 0 <= k < i ==> voice_id_char(#[trigger] chars@[k]),
        decreases chars.len() - i,
    {
        let c = chars[i];
        if !(('a' <= c && c <= 'z') || ('A' <= c && c <= 'Z') || ('0' <= c && c <= '9') || c == '_'
            || c == '-') {
            return false;
        }
        i += 1;
    }
    true
}

/// Where a voice is found in the repository and kept locally.
pub open spec fn voice_path(voice_id: Seq<char>) -> Seq<char> {
    "voices/"@ + voice_id + ".bin"@
}

pub open spec fn voice_plan_spec(voice_id: Seq<char>) -> Seq<(Seq<char>, Seq<char>, Seq<char>)> {
    seq![(voice_path(voice_id), voice_path(voice_id), voice_id + ".bin"@)]
}

/// The one file of a voice; an id that is not valid is refused.
pub fn voice_download_plan(voice_id: &str) -> (r: Result<Vec<DownloadFileSpec>, String>)
    ensures
        r is Ok <==> valid_voice_id(voice_id@),
        r matches Ok(p) ==> plan_view(p@) == voice_plan_spec(voice_id@),
        r matches Err(e) ==> e@ == "Unsupported voice id: "@ + voice_id@,
{
    if !is_valid_voice_id(voice_id) {
        return Err(concat("Unsupported voice id: ", voice_id));
    }
    let path = {
        let mut p = concat("voices/", voice_id);
        push_str(&mut p, ".bin");
        p
    };
    let local = {
        let mut p = concat("voices/", voice_id);
        push_str(&mut p, ".bin");
        p
    };
    let mut plan: Vec<DownloadFileSpec> = Vec::new();
    plan.push(
        DownloadFileSpec {
            remote_path: path,
            local_relative_path: local,
            progress_name: concat(voice_id, ".bin"),
        },
    );
    assert(plan_view(plan@) =~= voice_plan_spec(voice_id@));
    Ok(plan)
}

/// The address a repository file is fetched from.
pub fn download_url(remote_path: &str) -> (r: String)
    ensures
        r@ == HF_RESOLVE_BASE@ + "/"@ + remote_path@,
{
    let mut url = concat(HF_RESOLVE_BASE, "/");
    push_str(&mut url, remote_path);
    url
}

} // verus!
verus! {

// ---------------------------------------------------------------------------
// Voices the repository offers
// ---------------------------------------------------------------------------

/// Text order, character by character (for the ASCII ids compared here it
/// is the byte order of `str`).
pub open spec fn text_less(a: Seq<char>, b: Seq<char>) -> bool
    decreases a.len(),
{
    if a.len() == 0 {
        b.len() > 0
    } else if b.len() == 0 {
        false
    } else if a[0] != b[0] {
        (a[0] as u32) < (b[0] as u32)
    } else {
        text_less(a.drop_first(), b.drop_first())
    }
}

proof fn lemma_text_less_irreflexive(a: Seq<char>)
    ensures
        !text_less(a, a),
    decreases a.len(),
{
    if a.len() > 0 {
        lemma_text_less_irreflexive(a.drop_first());
    }
}

proof fn lemma_text_less_transitive(a: Seq<char>, b: Seq<char>, c: Seq<char>)
    requires
        text_less(a, b),
        text_less(b, c),
    ensures
        text_less(a, c),
    decreases a.len(),
{
    broadcast use vstd::utf8::char_u32_cast;

    if a.len() > 0 && b.len() > 0 && c.len() > 0 {
        if a[0] == b[0] && b[0] == c[0] {
            lemma_text_less_transitive(a.drop_first(), b.drop_first(), c.drop_first());
        } else {
            assert((a[0] as u32) != (c[0] as u32) ==> a[0] != c[0]);
        }
    }
}

proof fn lemma_text_less_total(a: Seq<char>, b: Seq<char>)
    ensures
        a == b || text_less(a, b) || text_less(b, a),
    decreases a.len(),
{
    broadcast use vstd::utf8::char_u32_cast;

    if a.len() > 0 && b.len() > 0 {
        if a[0] == b[0] {
            lemma_text_less_total(a.drop_first(), b.drop_first());
            if a.drop_first() == b.drop_first() {
                assert(a =~= seq![a[0]] + a.drop_first());
                assert(b =~= seq![b[0]] + b.drop_first());
            }
        } else if (a[0] as u32) == (b[0] as u32) {
            vstd::utf8::char_u32_cast(a[0], a[0] as u32);
            vstd::utf8::char_u32_cast(b[0], b[0] as u32);
        }
    } else if a.len() == 0 && b.len() == 0 {
        assert(a =~= b);
    }
}

fn text_less_exec(a: &[char], b: &[char]) -> (r: bool)
    ensures
        r == text_less(a@, b@),
{
    let mut i: usize = 0;
    assert(a@.skip(0) =~= a@);
    assert(b@.skip(0) =~= b@);
    while i < a.len() && i < b.len() && a[i] == b[i]
        invariant
            i <= a.len(),
            i <= b.len(),
            text_less(a@, b@) == text_less(a@.skip(i as int), b@.skip(i as int)),
        decreases a.len() - i,
    {
        proof {
            let x = a@.skip(i as int);
            let y = b@.skip(i as int);
            assert(x.drop_first() =~= a@.skip(i + 1));
            assert(y.drop_first() =~= b@.skip(i + 1));
        }
        i += 1;
    }
    if i == a.len() {
        i < b.len()
    } else if i == b.len() {
        false
    } else {
        (a[i] as u32) < (b[i] as u32)
    }
}

/// The voice id a repository file names: `voices/<id>.bin`.
pub open spec fn voice_id_of_file(file: Seq<char>) -> Option<Seq<char>> {
    let prefix = "voices/"@;
    let suffix = ".bin"@;
    if file.len() >= prefix.len() + suffix.len() && file.take(prefix.len() as int) == prefix
        && file.skip(file.len() - suffix.len()) == suffix {
        Some(file.subrange(prefix.len() as int, file.len() - suffix.len()))
    } else {
        None
    }
}

/// The repository offers a voice with this id.
pub open spec fn offered(files: Seq<Seq<char>>, id: Seq<char>) -> bool {
    valid_voice_id(id) && exists|k: int| 0 <= k < files.len() && voice_id_of_file(#[trigger] files[k]) == Some(id)
}

pub open spec fn voice_ids(v: Seq<KokoroAvailableVoice>) -> Seq<Seq<char>> {
    v.map_values(|x: KokoroAvailableVoice| x.id@)
}

pub open spec fn strictly_sorted(s: Seq<Seq<char>>) -> bool {
    forall|i: int, j: int| 0 <= i < j < s.len() ==> text_less(#[trigger] s[i], #[trigger] s[j])
}

/// Every voice is flagged installed exactly when its id is installed.
pub open spec fn flags_match(v: Seq<KokoroAvailableVoice>, installed: Seq<Seq<char>>) -> bool {
    forall|k: int| 0 <= k < v.len() ==> (#[trigger] v[k]).installed == installed.contains(v[k].id@)
}

fn voice_id_from_file(file: &str) -> (r: Option<String>)
    ensures
        match r {
            Some(id) => voice_id_of_file(file@) == Some(id@),
            None => voice_id_of_file(file@) is None,
        },
{
    let chars = str_chars(file);
    let prefix = str_chars("voices/");
    let suffix = str_chars(".bin");
    proof {
        reveal_strlit("voices/");
        reveal_strlit(".bin");
    }
    let n = chars.len();
    if n < prefix.len() + suffix.len() {
        return None;
    }
    let mut i: usize = 0;
    while i < prefix.len()
        invariant
            i <= prefix.len(),
            prefix.len() + suffix.len() <= n,
            n == chars.len(),
            forall|k: int| 0 <= k < i ==> chars@[k] == prefix@[k],
            chars@ == file@,
            prefix@ == "voices/"@,
        decreases prefix.len() - i,
    {
        if chars[i] != prefix[i] {
            assert(chars@.take(prefix.len() as int)[i as int] != prefix@[i as int]);
            return None;
        }
        i += 1;
    }
    assert(chars@.take(prefix.len() as int) =~= prefix@);
    let start = n - suffix.len();
    let mut j: usize = 0;
    while j < suffix.len()
        invariant
            j <= suffix.len(),
            start == n - suffix.len(),
            n == chars.len(),
            forall|k: int| 0 <= k < j ==> chars@[start + k] == suffix@[k],
            chars@ == file@,
            suffix@ == ".bin"@,
            prefix@ == "voices/"@,
            chars@.take(prefix.len() as int) == prefix@,
        decreases suffix.len() - j,
    {
        if chars[start + j] != suffix[j] {
            assert(chars@.skip(start as int)[j as int] != suffix@[j as int]);
            return None;
        }
        j += 1;
    }
    assert(chars@.take(prefix.len() as int) =~= prefix@);
    assert(chars@.skip(start as int) =~= suffix@);
    let mut id: Vec<char> = Vec::new();
    let mut k: usize = prefix.len();
    while k < start
        invariant
            prefix.len() <= k <= start,
            start <= n,
            n == chars.len(),
            id@ == chars@.subrange(prefix.len() as int, k as int),
        decreases start - k,
    {
        id.push(chars[k]);
        k += 1;
        assert(id@ =~= chars@.subrange(prefix.len() as int, k as int));
    }
    Some(crate::text::chars_to_string(id.as_slice()))
}

fn contains_id(v: &[String], id: &String) -> (r: bool)
    ensures
        r == strings_view(v@).contains(id@),
{
    let mut i: usize = 0;
    while i < v.len()
        invariant
            i <= v.len(),
            forall|k: int| 0 <= k < i ==> v@[k]@ != id@,
        decreases v.len() - i,
    {
        if v[i] == *id {
            assert(strings_view(v@)[i as int] == id@);
            return true;
        }
        i += 1;
    }
    proof {
        if strings_view(v@).contains(id@) {
            let k = choose|k: int| 0 <= k < strings_view(v@).len() && strings_view(v@)[k] == id@;
            assert(v@[k]@ == id@);
        }
    }
    false
}

/// Inserts a voice in order of id, unless its id is present.
fn insert_voice(out: &mut Vec<KokoroAvailableVoice>, voice: KokoroAvailableVoice)
    requires
        strictly_sorted(voice_ids(old(out)@)),
    ensures
        strictly_sorted(voice_ids(final(out)@)),
        forall|id: Seq<char>| #[trigger] voice_ids(final(out)@).contains(id) <==> (voice_ids(
            old(out)@,
        ).contains(id) || id == voice.id@),
        forall|k: int| 0 <= k < final(out)@.len() ==> (#[trigger] final(out)@[k] == voice
            || old(out)@.contains(final(out)@[k])),
{
    let ghost ids = voice_ids(out@);
    let ghost x = voice.id@;
    let key = str_chars(voice.id.as_str());
    let mut p: usize = 0;
    while p < out.len()
        invariant
            p <= out.len(),
            ids == voice_ids(out@),
            key@ == x,
            forall|k: int| 0 <= k < p ==> text_less(#[trigger] ids[k], x),
        ensures
            p <= out.len(),
            forall|k: int| 0 <= k < p ==> text_less(#[trigger] ids[k], x),
            p < out.len() ==> !text_less(ids[p as int], x),
        decreases out.len() - p,
    {
        let current = str_chars(out[p].id.as_str());
        if !text_less_exec(current.as_slice(), key.as_slice()) {
            break;
        }
        p += 1;
    }
    if p < out.len() {
        let current = str_chars(out[p].id.as_str());
        if crate::text::chars_eq(current.as_slice(), key.as_slice()) {
            assert(ids[p as int] == x);
            assert(ids.contains(x));
            assert forall|id: Seq<char>| #[trigger] voice_ids(out@).contains(id) <==> (ids.contains(
                id,
            ) || id == x) by {}
            assert forall|k: int| 0 <= k < out@.len() implies (#[trigger] out@[k] == voice
                || out@.contains(out@[k])) by {}
            return;
        }
        proof {
            lemma_text_less_total(ids[p as int], x);
        }
    }
    let ghost before = out@;
    out.insert(p, voice);
    proof {
        let now = voice_ids(out@);
        assert(now =~= ids.insert(p as int, x));
        assert forall|i: int, j: int| 0 <= i < j < now.len() implies text_less(
            #[trigger] now[i],
            #[trigger] now[j],
        ) by {
            if j < p {
                assert(now[i] == ids[i] && now[j] == ids[j]);
            } else if j == p {
                assert(now[i] == ids[i]);
            } else if i > p {
                assert(now[i] == ids[i - 1] && now[j] == ids[j - 1]);
            } else if i == p {
                assert(now[j] == ids[j - 1]);
                if j - 1 > p {
                    lemma_text_less_transitive(x, ids[p as int], ids[j - 1]);
                }
            } else {
                assert(now[i] == ids[i] && now[j] == ids[j - 1]);
                if j - 1 == p as int {
                    lemma_text_less_transitive(ids[i], x, ids[p as int]);
                } else {
                    assert(text_less(ids[i], ids[j - 1]));
                }
            }
        }
        assert forall|id: Seq<char>| #[trigger] now.contains(id) <==> (ids.contains(id) || id == x) by {
            if now.contains(id) {
                let k = choose|k: int| 0 <= k < now.len() && now[k] == id;
                if k < p {
                    assert(ids[k] == id);
                } else if k > p {
                    assert(ids[k - 1] == id);
                }
            }
            if ids.contains(id) {
                let k = choose|k: int| 0 <= k < ids.len() && ids[k] == id;
                if k < p {
                    assert(now[k] == id);
                } else {
                    assert(now[k + 1] == id);
                }
            }
            if id == x {
                assert(now[p as int] == id);
            }
        }
        assert forall|k: int| 0 <= k < out@.len() implies (#[trigger] out@[k] == voice
            || before.contains(out@[k])) by {
            if k < p {
                assert(out@[k] == before[k]);
            } else if k > p {
                assert(out@[k] == before[k - 1]);
            }
        }
    }
}

/// The voices the repository's file listing offers, each once, in order of
/// id, flagged by whether the id is among the installed ones.
pub fn available_voices_from_listing(files: &[String], installed: &[String]) -> (r: Vec<
    KokoroAvailableVoice,
>)
    ensures
        strictly_sorted(voice_ids(r@)),
        forall|id: Seq<char>| #[trigger] voice_ids(r@).contains(id) <==> offered(strings_view(files@), id),
        flags_match(r@, strings_view(installed@)),
{
    let ghost fs = strings_view(files@);
    let mut out: Vec<KokoroAvailableVoice> = Vec::new();
    let mut i: usize = 0;
    while i < files.len()
        invariant
            i <= files.len(),
            fs == strings_view(files@),
            strictly_sorted(voice_ids(out@)),
            forall|id: Seq<char>| #[trigger] voice_ids(out@).contains(id) <==> offered(fs.take(i as int), id),
            flags_match(out@, strings_view(installed@)),
        decreases files.len() - i,
    {
        let ghost prev = out@;
        let found = voice_id_from_file(files[i].as_str());
        let ghost taken = fs.take(i + 1);
        assert(taken[i as int] == files@[i as int]@);
        match found {
            Some(id) => {
                if is_valid_voice_id(id.as_str()) {
                    let flag = contains_id(installed, &id);
                    let ghost idv = id@;
                    insert_voice(&mut out, KokoroAvailableVoice { id, installed: flag });
                    assert forall|x: Seq<char>| #[trigger] voice_ids(out@).contains(x) <==> offered(taken, x) by {
                        if offered(taken, x) && x != idv {
                            let k = choose|k: int| 0 <= k < taken.len() && voice_id_of_file(#[trigger] taken[k]) == Some(x);
                            assert(k < i);
                            assert(fs.take(i as int)[k] == taken[k]);
                        }
                        if voice_ids(prev).contains(x) {
                            let k = choose|k: int| 0 <= k < i && voice_id_of_file(#[trigger] fs.take(i as int)[k]) == Some(x);
                            assert(taken[k] == fs.take(i as int)[k]);
                        }
                    }
                    assert forall|k: int| 0 <= k < out@.len() implies (#[trigger] out@[k]).installed
                        == strings_view(installed@).contains(out@[k].id@) by {
                        if prev.contains(out@[k]) {
                            let j = choose|j: int| 0 <= j < prev.len() && prev[j] == out@[k];
                            assert(prev[j].installed == strings_view(installed@).contains(prev[j].id@));
                        }
                    }
                } else {
                    assert forall|x: Seq<char>| #[trigger] voice_ids(out@).contains(x) <==> offered(taken, x) by {
                        if offered(taken, x) {
                            let k = choose|k: int| 0 <= k < taken.len() && voice_id_of_file(#[trigger] taken[k]) == Some(x);
                            if k < i {
                                assert(fs.take(i as int)[k] == taken[k]);
                            }
                        }
                        if voice_ids(prev).contains(x) {
                            let k = choose|k: int| 0 <= k < i && voice_id_of_file(#[trigger] fs.take(i as int)[k]) == Some(x);
                            assert(taken[k] == fs.take(i as int)[k]);
                        }
                    }
                }
            },
            None => {
                assert forall|x: Seq<char>| #[trigger] voice_ids(out@).contains(x) <==> offered(taken, x) by {
                    if offered(taken, x) {
                        let k = choose|k: int| 0 <= k < taken.len() && voice_id_of_file(#[trigger] taken[k]) == Some(x);
                        if k < i {
                            assert(fs.take(i as int)[k] == taken[k]);
                        }
                    }
                    if voice_ids(prev).contains(x) {
                        let k = choose|k: int| 0 <= k < i && voice_id_of_file(#[trigger] fs.take(i as int)[k]) == Some(x);
                        assert(taken[k] == fs.take(i as int)[k]);
                    }
                }
            },
        }
        i += 1;
    }
    assert(fs.take(files.len() as int) =~= fs);
    out
}

} // verus!
verus! {

// ---------------------------------------------------------------------------
// Bookkeeping of a download in progress
// ---------------------------------------------------------------------------

/// Whether a download runs, whether it was asked to stop, and its progress.
pub struct DownloadState {
    pub is_downloading: bool,
    pub cancel_requested: bool,
    pub progress: KokoroDownloadProgress,
}

pub open spec fn opt_text(o: Option<String>) -> Option<Seq<char>> {
    match o {
        Some(s) => Some(s@),
        None => None,
    }
}

/// Same progress but for the status.
pub open spec fn same_but_status(a: KokoroDownloadProgress, b: KokoroDownloadProgress) -> bool {
    &&& a.downloaded == b.downloaded
    &&& a.total == b.total
    &&& a.current_file_index == b.current_file_index
    &&& a.total_files == b.total_files
    &&& a.current_file_name@ == b.current_file_name@
    &&& opt_text(a.asset_root) == opt_text(b.asset_root)
    &&& opt_text(a.install_kind) == opt_text(b.install_kind)
    &&& opt_text(a.variant) == opt_text(b.variant)
    &&& opt_text(a.voice_id) == opt_text(b.voice_id)
}

/// Same file counts, root, kind, variant and voice.
pub open spec fn same_labels(a: KokoroDownloadProgress, b: KokoroDownloadProgress) -> bool {
    &&& a.total_files == b.total_files
    &&& opt_text(a.asset_root) == opt_text(b.asset_root)
    &&& opt_text(a.install_kind) == opt_text(b.install_kind)
    &&& opt_text(a.variant) == opt_text(b.variant)
    &&& opt_text(a.voice_id) == opt_text(b.voice_id)
}

impl DownloadState {
    /// Nothing downloading, progress idle.
    pub fn new() -> (r: Self)
        ensures
            !r.is_downloading,
            !r.cancel_requested,
            is_idle_progress(r.progress, "idle"@),
    {
        DownloadState { is_downloading: false, cancel_requested: false, progress: idle_progress() }
    }

    /// Starts a download of `total_files` files, the first shown as
    /// `first_file_name`. Refused, with nothing changed, while another
    /// download runs.
    pub fn begin(
        &mut self,
        total_files: usize,
        first_file_name: Option<String>,
        asset_root: String,
        install_kind: String,
        variant: Option<String>,
        voice_id: Option<String>,
    ) -> (r: Result<(), String>)
        ensures
            old(self).is_downloading ==> r is Err && *final(self) == *old(self),
            r matches Err(e) ==> e@ == "Kokoro download already in progress"@,
            !old(self).is_downloading ==> {
                &&& r is Ok
                &&& final(self).is_downloading
                &&& !final(self).cancel_requested
                &&& final(self).progress.downloaded == 0
                &&& final(self).progress.total == 0
                &&& final(self).progress.status@ == "downloading"@
                &&& final(self).progress.current_file_index == 1
                &&& final(self).progress.total_files == total_files
                &&& final(self).progress.current_file_name@ == match first_file_name {
                    Some(n) => n@,
                    None => Seq::<char>::empty(),
                }
                &&& opt_text(final(self).progress.asset_root) == Some(asset_root@)
                &&& opt_text(final(self).progress.install_kind) == Some(install_kind@)
                &&& opt_text(final(self).progress.variant) == opt_text(variant)
                &&& opt_text(final(self).progress.voice_id) == opt_text(voice_id)
            },
    {
        if self.is_downloading {
            return Err(owned("Kokoro download already in progress"));
        }
        self.is_downloading = true;
        self.cancel_requested = false;
        self.progress = KokoroDownloadProgress {
            downloaded: 0,
            total: 0,
            status: owned("downloading"),
            current_file_index: 1,
            total_files,
            current_file_name: match first_file_name {
                Some(n) => n,
                None => String::new(),
            },
            asset_root: Some(asset_root),
            install_kind: Some(install_kind),
            variant,
            voice_id,
        };
        Ok(())
    }

    /// Moves on to the file at `index` of the plan.
    pub fn start_file(&mut self, index: usize, name: &str)
        requires
            index < usize::MAX,
        ensures
            final(self).is_downloading == old(self).is_downloading,
            final(self).cancel_requested == old(self).cancel_requested,
            final(self).progress.current_file_index == index + 1,
            final(self).progress.current_file_name@ == name@,
            final(self).progress.status@ == "Downloading "@ + name@,
            final(self).progress.downloaded == old(self).progress.downloaded,
            final(self).progress.total == old(self).progress.total,
            same_labels(final(self).progress, old(self).progress),
    {
        self.progress.current_file_index = index + 1;
        self.progress.current_file_name = owned(name);
        self.progress.status = concat("Downloading ", name);
    }

    /// Adds a file's announced size to the total.
    pub fn add_total(&mut self, size: u64)
        ensures
            final(self).progress.total == old(self).progress.total.saturating_add(size),
            final(self).progress.downloaded == old(self).progress.downloaded,
            final(self).progress.status@ == old(self).progress.status@,
            final(self).progress.current_file_index == old(self).progress.current_file_index,
            final(self).progress.current_file_name@ == old(self).progress.current_file_name@,
            same_labels(final(self).progress, old(self).progress),
            final(self).is_downloading == old(self).is_downloading,
            final(self).cancel_requested == old(self).cancel_requested,
    {
        self.progress.total = self.progress.total.saturating_add(size);
    }

    /// Counts bytes received.
    pub fn add_downloaded(&mut self, bytes: u64)
        ensures
            final(self).progress.downloaded == old(self).progress.downloaded.saturating_add(bytes),
            final(self).progress.total == old(self).progress.total,
            final(self).progress.status@ == old(self).progress.status@,
            final(self).progress.current_file_index == old(self).progress.current_file_index,
            final(self).progress.current_file_name@ == old(self).progress.current_file_name@,
            same_labels(final(self).progress, old(self).progress),
            final(self).is_downloading == old(self).is_downloading,
            final(self).cancel_requested == old(self).cancel_requested,
    {
        self.progress.downloaded = self.progress.downloaded.saturating_add(bytes);
    }

    /// A file failed: the download ends as `cancelled` when it was asked to
    /// stop, as `failed` otherwise.
    pub fn fail(&mut self) -> (was_cancelled: bool)
        ensures
            was_cancelled == old(self).cancel_requested,
            !final(self).is_downloading,
            !final(self).cancel_requested,
            final(self).progress.status@ == if was_cancelled {
                "cancelled"@
            } else {
                "failed"@
            },
            same_but_status(final(self).progress, old(self).progress),
    {
        let was_cancelled = self.cancel_requested;
        self.is_downloading = false;
        self.cancel_requested = false;
        self.progress.status = if was_cancelled {
            owned("cancelled")
        } else {
            owned("failed")
        };
        was_cancelled
    }

    /// Every file arrived.
    pub fn complete(&mut self)
        ensures
            !final(self).is_downloading,
            !final(self).cancel_requested,
            final(self).progress.status@ == "completed"@,
            same_but_status(final(self).progress, old(self).progress),
    {
        self.is_downloading = false;
        self.cancel_requested = false;
        self.progress.status = owned("completed");
    }

    /// Asks the running download to stop and says whether one runs. With
    /// none running, progress is reset to `cancelled` at once.
    pub fn request_cancel(&mut self) -> (running: bool)
        ensures
            running == old(self).is_downloading,
            running ==> final(self).cancel_requested && final(self).is_downloading
                && final(self).progress == old(self).progress,
            !running ==> !final(self).is_downloading && final(self).cancel_requested
                == old(self).cancel_requested && is_idle_progress(final(self).progress, "cancelled"@),
    {
        if !self.is_downloading {
            self.progress = progress_with_status("cancelled");
            return false;
        }
        self.cancel_requested = true;
        true
    }

    /// The stopped download has been cleaned up.
    pub fn finish_cancel(&mut self)
        ensures
            !final(self).is_downloading,
            !final(self).cancel_requested,
            is_idle_progress(final(self).progress, "cancelled"@),
    {
        self.is_downloading = false;
        self.cancel_requested = false;
        self.progress = progress_with_status("cancelled");
    }
}

/// Of the files a download writes, those that did not exist before it and
/// may be removed when it fails.
pub fn removable_paths(owned_paths: &[String], preexisting: &[String]) -> (r: Vec<String>)
    ensures
        strings_view(r@) == strings_view(owned_paths@).filter(
            |p: Seq<char>| !strings_view(preexisting@).contains(p),
        ),
{
    let ghost all = strings_view(owned_paths@);
    let ghost keep = |p: Seq<char>| !strings_view(preexisting@).contains(p);
    let mut out: Vec<String> = Vec::new();
    let mut i: usize = 0;
    while i < owned_paths.len()
        invariant
            i <= owned_paths.len(),
            all == strings_view(owned_paths@),
            keep == (|p: Seq<char>| !strings_view(preexisting@).contains(p)),
            strings_view(out@) == all.take(i as int).filter(keep),
        decreases owned_paths.len() - i,
    {
        let ghost before = strings_view(out@);
        proof {
            assert(all.take(i + 1).drop_last() =~= all.take(i as int));
            assert(all.take(i + 1).last() == owned_paths@[i as int]@);
            reveal_with_fuel(Seq::filter, 1);
        }
        if !contains_id(preexisting, &owned_paths[i]) {
            out.push(owned_paths[i].clone());
            assert(strings_view(out@) =~= before.push(owned_paths@[i as int]@));
        }
        i += 1;
    }
    assert(all.take(owned_paths.len() as int) =~= all);
    proof {
        assert(all.take(0).filter(keep) =~= Seq::<Seq<char>>::empty()) by {
            reveal_with_fuel(Seq::filter, 1);
        }
    }
    out
}

} // verus!
