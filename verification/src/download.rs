//! Where the chat model file is looked for.
use vstd::prelude::*;
use crate::paths::{join_path, path_join};
use crate::transcription::answered;

verus! {

pub open spec fn model_filename() -> Seq<char> {
    "gemma-4-E4B-it-Q4_K_M.gguf"@
}

/// `<dir>/models/<model file>`
pub open spec fn model_file_in(dir: Seq<char>) -> Seq<char> {
    path_join(path_join(dir, "models"@), model_filename())
}

pub fn model_file_path(dir: &str) -> (r: String)
    ensures
        r@ == model_file_in(dir@),
{
    let m = join_path(dir, "models");
    join_path(m.as_str(), "gemma-4-E4B-it-Q4_K_M.gguf")
}

/// No resource folder was known, or the bundled file was not found there.
pub open spec fn no_bundled_copy<F: Fn(String) -> bool>(f: F, resource_dir: Option<&str>) -> bool {
    match resource_dir {
        Some(rd) => answered(f, model_file_in(rd@), false),
        None => true,
    }
}

/// The model file: the copy bundled with the app (under the resource
/// folder) when `path_exists` finds it there, otherwise the downloaded copy
/// under the app-data folder. An unknown app-data folder is an error.
pub fn model_path<F: Fn(String) -> bool>(
    resource_dir: Option<&str>,
    app_data_dir: Result<&str, &str>,
    path_exists: F,
) -> (r: Result<String, String>)
    requires
        forall|p: String| path_exists.requires((p,)),
    ensures
        match r {
            Ok(p) => match resource_dir {
                Some(rd) if p@ == model_file_in(rd@) && answered(path_exists, p@, true) => true,
                _ => no_bundled_copy(path_exists, resource_dir) && match app_data_dir {
                    Ok(d) => p@ == model_file_in(d@),
                    Err(_) => false,
                },
            },
            Err(e) => no_bundled_copy(path_exists, resource_dir) && match app_data_dir {
                Ok(_) => false,
                Err(x) => e@ == x@,
            },
        },
{
    if let Some(rd) = resource_dir {
        let bundled = model_file_path(rd);
        let probe = bundled.clone();
        if path_exists(probe) {
            assert(answered(path_exists, bundled@, true));
            return Ok(bundled);
        }
        assert(answered(path_exists, model_file_in(rd@), false));
    }
    match app_data_dir {
        Ok(d) => Ok(model_file_path(d)),
        Err(x) => Err(x.to_owned()),
    }
}

} // verus!
