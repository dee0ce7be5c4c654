//! A scorer for YouTube video URLs and video IDs.
use vstd::prelude::*;
use crate::scorer::Scorer;
use crate::text::{chars_of, has_prefix, is_alnum, is_ascii_alphanumeric, matches_at};

verus! {

/// Scores inputs that look like YouTube video URLs or IDs.
pub struct YoutubeURLScorer;

/// An ASCII letter or digit, '-' or '_'.
pub open spec fn video_id_char(c: char) -> bool {
    is_alnum(c) || c == '-' || c == '_'
}

/// 1000 for a "https://www.youtube.com/watch?v=" link, 950 for a
/// "https://youtu.be/" link; for text made only of video-ID characters, 30
/// when it is eleven characters long and 10 otherwise; else 0.
pub open spec fn youtube_score(input: Seq<char>) -> i32 {
    if has_prefix(input, "https://www.youtube.com/watch?v="@) {
        1000
    } else if has_prefix(input, "https://youtu.be/"@) {
        950
    } else if forall|i: int| 0 <= i < input.len() ==> video_id_char(#[trigger] input[i]) {
        if input.len() == 11 {
            30
        } else {
            10
        }
    } else {
        0
    }
}

impl Scorer for YoutubeURLScorer {
    open spec fn spec_name(&self) -> Seq<char> {
        "youtube_url"@
    }

    open spec fn spec_score(&self, input: Seq<char>) -> i32 {
        youtube_score(input)
    }

    fn name(&self) -> (r: &'static str) {
        "youtube_url"
    }

    fn score(&self, input: &str) -> (r: i32) {
        let cs = chars_of(input);
        let watch = chars_of("https://www.youtube.com/watch?v=");
        let short = chars_of("https://youtu.be/");
        // Strong signals: full YouTube watch URLs.
        if matches_at(&cs, &watch, 0) {
            return 1000;
        }
        if matches_at(&cs, &short, 0) {
            return 950;
        }
        assert(!has_prefix(input@, "https://www.youtube.com/watch?v="@));
        assert(!has_prefix(input@, "https://youtu.be/"@));
        // Heuristic: a bare 11-char video ID consisting of allowed chars.
        let mut i: usize = 0;
        while i < cs.len()
            invariant
                i <= cs@.len(),
                cs@ == input@,
                !has_prefix(input@, "https://www.youtube.com/watch?v="@),
                !has_prefix(input@, "https://youtu.be/"@),
                forall|k: int| 0 <= k < i ==> video_id_char(#[trigger] cs@[k]),
            decreases cs@.len() - i,
        {
            let c = cs[i];
            if !(is_ascii_alphanumeric(c) || c == '-' || c == '_') {
                assert(!video_id_char(input@[i as int]));
                return 0;
            }
            i = i + 1;
        }
        if cs.len() == 11 {
            30
        } else {
            10
        }
    }
}

} // verus!
