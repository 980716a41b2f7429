//! Where the model files are looked for.
use vstd::prelude::*;
use vstd::string::*;

verus! {

/// The path `base` joined with the relative or absolute path `component`,
/// as a Unix path join does it: an absolute component replaces the base, an
/// empty base gives the component alone, and a separator is put between the
/// two only where the base does not already end with one.
pub open spec fn path_join(base: Seq<char>, component: Seq<char>) -> Seq<char> {
    if component.len() > 0 && component[0] == '/' {
        component
    } else if base.len() == 0 {
        component
    } else if base.last() == '/' {
        base + component
    } else {
        base + seq!['/'] + component
    }
}

/// `.cache`
pub open spec fn cache_dir_name() -> Seq<char> {
    seq!['.', 'c', 'a', 'c', 'h', 'e']
}

/// `manga-ocr-rs`
pub open spec fn app_dir_name() -> Seq<char> {
    seq!['m', 'a', 'n', 'g', 'a', '-', 'o', 'c', 'r', '-', 'r', 's']
}

/// The directory that holds the model files: the override where one is
/// given, else `<home>/.cache/manga-ocr-rs`, with `.` standing for a home
/// directory that is not known.
pub open spec fn model_dir_spec(models_dir_override: Option<Seq<char>>, home: Option<Seq<char>>) -> Seq<char> {
    match models_dir_override {
        Some(dir) => dir,
        None => {
            let home_dir = match home {
                Some(h) => h,
                None => seq!['.'],
            };
            path_join(path_join(home_dir, cache_dir_name()), app_dir_name())
        },
    }
}

/// An override is used exactly as given, whatever it is and whatever the
/// home directory.
pub proof fn lemma_model_dir_override_wins(d: Seq<char>, home: Option<Seq<char>>)
    ensures
        model_dir_spec(Some(d), home) == d,
{
}

/// Without an override, the directory is `.cache/manga-ocr-rs` under the
/// home directory, with a separator after a home that does not end with
/// one.
pub proof fn lemma_model_dir_under_home(h: Seq<char>)
    requires
        h.len() > 0,
        h.last() != '/',
    ensures
        model_dir_spec(None, Some(h)) == h + seq!['/'] + cache_dir_name() + seq!['/'] + app_dir_name(),
{
    let base = h + seq!['/'] + cache_dir_name();
    assert(path_join(h, cache_dir_name()) == base);
    assert(base.last() == 'e');
    assert(path_join(base, app_dir_name()) =~= h + seq!['/'] + cache_dir_name() + seq!['/'] + app_dir_name());
}

/// Joins `component` onto `base` (see `path_join`).
pub fn join_path(base: &str, component: &str) -> (joined: String)
    ensures
        joined@ == path_join(base@, component@),
{
    let clen = component.unicode_len();
    if clen > 0 && component.get_char(0) == '/' {
        return String::from_str(component);
    }
    let blen = base.unicode_len();
    let mut out = String::from_str(base);
    if blen > 0 && base.get_char(blen - 1) != '/' {
        let sep = "/";
        proof {
            reveal_strlit("/");
        }
        out.append(sep);
    }
    out.append(component);
    out
}

/// The directory where the model files (`encoder_model.onnx`,
/// `decoder_model.onnx`, `vocab.txt`) are looked for.
///
/// `models_dir_override` is the value of `MANGA_OCR_MODELS_DIR` where it is
/// set, and `home` that of `HOME`; the caller reads them from the
/// environment.
pub fn default_model_dir(models_dir_override: Option<&str>, home: Option<&str>) -> (dir: String)
    ensures
        dir@ == model_dir_spec(
            match models_dir_override { Some(d) => Some(d@), None => None },
            match home { Some(h) => Some(h@), None => None },
        ),
        models_dir_override matches Some(d) ==> dir@ == d@,
        models_dir_override is None ==> (home matches Some(h) ==> (h@.len() > 0 && h@.last() != '/' ==> dir@
            == h@ + seq!['/'] + cache_dir_name() + seq!['/'] + app_dir_name())),
        models_dir_override is None && home is None ==> dir@ == seq!['.', '/'] + cache_dir_name() + seq!['/']
            + app_dir_name(),
{
    match models_dir_override {
        Some(d) => String::from_str(d),
        None => {
            let home_dir: &str = match home {
                Some(h) => h,
                None => ".",
            };
            let cache = ".cache";
            let app = "manga-ocr-rs";
            proof {
                reveal_strlit(".");
                reveal_strlit(".cache");
                reveal_strlit("manga-ocr-rs");
            }
            let base = join_path(home_dir, cache);
            join_path(base.as_str(), app)
        },
    }
}

} // verus!
