use regex::Regex;
use vstd::prelude::*;
use vstd::string::*;

verus! {

/// What the first group of the pattern holds where the pattern first matches
/// in the text; nothing where the pattern is no pattern, where it matches
/// nowhere, or where its first group took no part in the match.
pub uninterp spec fn first_group(pattern: Seq<char>, text: Seq<char>) -> Option<Seq<char>>;

/// `Regex::captures` on a pattern made by `Regex::new`: the text that the
/// first group of the leftmost match holds.
#[verifier::external_body]
pub(crate) fn capture_first(pattern: &str, text: &str) -> (r: Option<String>)
    ensures
        match r {
            Some(s) => first_group(pattern@, text@) == Some(s@),
            None => first_group(pattern@, text@) is None,
        },
{
    let re = match Regex::new(pattern) {
        Ok(re) => re,
        Err(_) => return None,
    };
    match re.captures(text) {
        Some(caps) => match caps.get(1) {
            Some(m) => Some(m.as_str().to_owned()),
            None => None,
        },
        None => None,
    }
}

/// The pattern of the path of a task: the name of the task stands between
/// `prob-` and `.desc`.
pub const TASK_PATTERN: &'static str = r".*/prob-((\d|\w)+)\.desc";

/// The pattern of the path of a solution: the number of turns stands between
/// the last `/` and `.sol`.
pub const SOLUTION_PATTERN: &'static str = r"/.+/(\d+)\.sol";

/// The pattern of the path of the solutions of one task: the name of the task
/// follows the first directory.
pub const ENTRY_PATTERN: &'static str = r"[a-z_]+/(.+)";

/// The name of the task whose description lies at the path.
pub fn get_problem_name(path: &str) -> (r: Option<String>)
    ensures
        match r {
            Some(s) => first_group(TASK_PATTERN@, path@) == Some(s@),
            None => first_group(TASK_PATTERN@, path@) is None,
        },
{
    capture_first(TASK_PATTERN, path)
}

/// The name of the task whose solutions lie at the path.
pub fn entry_name(path: &str) -> (r: Option<String>)
    ensures
        match r {
            Some(s) => first_group(ENTRY_PATTERN@, path@) == Some(s@),
            None => first_group(ENTRY_PATTERN@, path@) is None,
        },
{
    capture_first(ENTRY_PATTERN, path)
}

/// The number that the characters from the first up to but without the
/// `j`-th stand for, if they are digits.
pub open spec fn text_value(s: Seq<char>, j: int) -> nat
    decreases j,
{
    if j <= 0 {
        0
    } else {
        (text_value(s, j - 1) * 10 + (s[j - 1] as int - 48)) as nat
    }
}

/// The number that the text is: digits from `0` to `9` and nothing else.
/// There is none where the number does not fit in 64 bits.
pub open spec fn score_of_text(s: Seq<char>) -> Option<int> {
    if s.len() > 0 && (forall|k: int| 0 <= k < s.len() ==> '0' <= #[trigger] s[k] <= '9')
        && text_value(s, s.len() as int) <= i64::MAX {
        Some(text_value(s, s.len() as int) as int)
    } else {
        None
    }
}

/// The number that the text is.
pub fn parse_score(s: &str) -> (r: Option<i64>)
    ensures
        match r {
            Some(v) => score_of_text(s@) == Some(v as int),
            None => score_of_text(s@) is None,
        },
{
    if !s.is_ascii() {
        proof {
            let k = choose|k: int| 0 <= k < s@.len() && !('\0' <= #[trigger] s@[k] <= '\u{7f}');
            assert(!('0' <= s@[k] <= '9'));
        }
        return None;
    }
    let n: usize = s.unicode_len();
    if n == 0 {
        return None;
    }
    let mut v: i64 = 0;
    let mut over: bool = false;
    let mut k: usize = 0;
    while k < n
        invariant
            k <= n,
            n == s@.len(),
            s.is_ascii(),
            forall|j: int| 0 <= j < k ==> '0' <= #[trigger] s@[j] <= '9',
            !over ==> v == text_value(s@, k as int) && v >= 0,
            over ==> text_value(s@, k as int) > i64::MAX,
        decreases n - k,
    {
        let b: u8 = s.get_ascii(k);
        if b < 48 || b > 57 {
            assert(!('0' <= s@[k as int] <= '9'));
            return None;
        }
        let d: i64 = (b - 48) as i64;
        if !over {
            if v > (i64::MAX - d) / 10 {
                over = true;
            } else {
                v = v * 10 + d;
            }
        } else {
            assert(text_value(s@, k + 1) >= text_value(s@, k as int));
        }
        k = k + 1;
    }
    if over {
        None
    } else {
        Some(v)
    }
}

/// The number of turns of the solution that lies at the path.
pub open spec fn score_at(path: Seq<char>) -> Option<int> {
    match first_group(SOLUTION_PATTERN@, path) {
        Some(t) => score_of_text(t),
        None => None,
    }
}

/// The number of turns of the solution that lies at the path.
pub fn score_of_path(path: &str) -> (r: Option<i64>)
    ensures
        match r {
            Some(v) => score_at(path@) == Some(v as int),
            None => score_at(path@) is None,
        },
{
    match capture_first(SOLUTION_PATTERN, path) {
        Some(t) => parse_score(t.as_str()),
        None => None,
    }
}

/// What is known of the solutions that were kept for a task.
#[derive(Debug, Clone, Copy, PartialEq, Eq, Structural)]
pub enum Best {
    /// None was kept.
    Nothing,
    /// The best one takes this many turns.
    Turns(i64),
    /// One of the paths is not that of a solution.
    Unknown,
}

/// The least number of turns among the solutions that lie at the paths.
pub fn get_best_score(paths: &Vec<String>) -> (r: Best)
    ensures
        match r {
            Best::Unknown => exists|k: int|
                0 <= k < paths@.len() && score_at((#[trigger] paths@[k])@) is None,
            Best::Nothing => paths@.len() == 0,
            Best::Turns(m) => paths@.len() > 0 && (forall|k: int|
                0 <= k < paths@.len() ==> score_at((#[trigger] paths@[k])@) is Some && m
                    <= score_at(paths@[k]@)->0) && exists|k: int|
                0 <= k < paths@.len() && score_at((#[trigger] paths@[k])@) == Some(m as int),
        },
{
    let mut best: Option<i64> = None;
    let ghost mut at: int = 0;
    let mut k: usize = 0;
    while k < paths.len()
        invariant
            k <= paths@.len(),
            forall|j: int| 0 <= j < k ==> score_at((#[trigger] paths@[j])@) is Some,
            best is None <==> k == 0,
            best matches Some(m) ==> 0 <= at < k && score_at(paths@[at]@) == Some(m as int)
                && forall|j: int| 0 <= j < k ==> m <= score_at((#[trigger] paths@[j])@)->0,
        decreases paths@.len() - k,
    {
        match score_of_path(paths[k].as_str()) {
            None => {
                return Best::Unknown;
            },
            Some(v) => {
                let better: bool = match best {
                    Some(m) => v < m,
                    None => true,
                };
                if better {
                    best = Some(v);
                    proof {
                        at = k as int;
                    }
                }
            },
        }
        k = k + 1;
    }
    match best {
        Some(m) => Best::Turns(m),
        None => Best::Nothing,
    }
}

/// Whether a solution with `score` turns is to be kept: where it is asked
/// for, where none was kept so far, and where it takes fewer turns than the
/// best that was kept.
pub fn should_save(best: Option<i64>, score: i64, force_save: bool) -> (b: bool)
    ensures
        b == (force_save || best is None || best == Some(0i64) || best->0 > score),
{
    let known: i64 = match best {
        Some(v) => v,
        None => 0,
    };
    known == 0 || known > score || force_save
}

} // verus!
