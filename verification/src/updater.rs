//! Self-update: version comparison, the choice among update sources, and
//! the checks on what a manifest from the network may make the program do
//! (asset file names, installer names, the SHA-256 of a download).
use sha2::Digest;
use vstd::prelude::*;

use crate::text::{
    digit_value, digits_value, hex_char, hex_digit, is_digit, lemma_digits_value_grows,
    lemma_digits_value_mono,
};

verus! {

// ---------------------------------------------------------------------------
// Versions
// ---------------------------------------------------------------------------
/// The maximal runs of ASCII digits of `s`, in order.
pub open spec fn digit_runs(s: Seq<char>) -> Seq<Seq<char>>
    decreases s.len(),
{
    if s.len() == 0 {
        Seq::empty()
    } else {
        let r = digit_runs(s.drop_last());
        let c = s.last();
        if !is_digit(c) {
            r
        } else if s.len() >= 2 && is_digit(s[s.len() - 2]) {
            r.update(r.len() - 1, r.last().push(c))
        } else {
            r.push(seq![c])
        }
    }
}

/// The values of the runs that fit in a `u64`, in order.
pub open spec fn run_values(runs: Seq<Seq<char>>) -> Seq<u64>
    decreases runs.len(),
{
    if runs.len() == 0 {
        Seq::empty()
    } else {
        let r = run_values(runs.drop_last());
        if digits_value(runs.last()) <= u64::MAX {
            r.push(digits_value(runs.last()) as u64)
        } else {
            r
        }
    }
}

/// The numeric parts of a version string: every run of digits, read as a
/// number (a run too long for a `u64` is dropped).  `v0.3.1` gives
/// `[0, 3, 1]`.
pub open spec fn spec_parse_version(s: Seq<char>) -> Seq<u64> {
    run_values(digit_runs(s))
}

proof fn lemma_digit_runs_shape(s: Seq<char>)
    ensures
        forall|k: int|
            0 <= k < digit_runs(s).len() ==> (#[trigger] digit_runs(s)[k]).len() > 0 && forall|j: int|
                0 <= j < digit_runs(s)[k].len() ==> is_digit(#[trigger] digit_runs(s)[k][j]),
        s.len() > 0 && is_digit(s.last()) ==> digit_runs(s).len() > 0,
    decreases s.len(),
{
    if s.len() > 0 {
        lemma_digit_runs_shape(s.drop_last());
        let r = digit_runs(s.drop_last());
        if is_digit(s.last()) && s.len() >= 2 && is_digit(s[s.len() - 2]) {
            assert(s.drop_last().last() == s[s.len() - 2]);
            assert(r.len() > 0);
            let t = digit_runs(s);
            assert forall|k: int| 0 <= k < t.len() implies (#[trigger] t[k]).len() > 0 && forall|
                j: int,
            | 0 <= j < t[k].len() ==> is_digit(#[trigger] t[k][j]) by {
                if k == r.len() - 1 {
                    assert(t[k] == r.last().push(s.last()));
                    assert forall|j: int| 0 <= j < t[k].len() implies is_digit(#[trigger] t[k][j]) by {
                        if j < r.last().len() {
                            assert(t[k][j] == r[k][j]);
                        }
                    }
                } else {
                    assert(t[k] == r[k]);
                }
            }
        }
    }
}

/// The runs of digits of `chars`, as character vectors.
fn digit_runs_of(chars: &Vec<char>) -> (runs: Vec<Vec<char>>)
    ensures
        runs@.len() == digit_runs(chars@).len(),
        forall|k: int| 0 <= k < runs@.len() ==> (#[trigger] runs@[k])@ == digit_runs(chars@)[k],
{
    let mut runs: Vec<Vec<char>> = Vec::new();
    let mut i: usize = 0;
    while i < chars.len()
        invariant
            i <= chars@.len(),
            runs@.len() == digit_runs(chars@.take(i as int)).len(),
            forall|k: int|
                0 <= k < runs@.len() ==> (#[trigger] runs@[k])@ == digit_runs(chars@.take(i as int))[k],
        decreases chars.len() - i,
    {
        let c = chars[i];
        let ghost pre = chars@.take(i as int);
        let ghost cur = chars@.take(i + 1);
        assert(cur.drop_last() == pre);
        assert(cur.last() == c);
        if '0' <= c && c <= '9' {
            if i > 0 && '0' <= chars[i - 1] && chars[i - 1] <= '9' {
                proof {
                    assert(cur[cur.len() - 2] == chars@[i - 1]);
                    assert(pre.last() == chars@[i - 1]);
                    lemma_digit_runs_shape(pre);
                }
                let ghost before = runs@;
                let mut last = runs.pop().unwrap();
                last.push(c);
                runs.push(last);
                proof {
                    let r = digit_runs(pre);
                    assert(digit_runs(cur) == r.update(r.len() - 1, r.last().push(c)));
                    assert forall|k: int| 0 <= k < runs@.len() implies (#[trigger] runs@[k])@
                        == digit_runs(cur)[k] by {
                        if k < runs@.len() - 1 {
                            assert(runs@[k] == before[k]);
                        }
                    }
                }
            } else {
                let mut run: Vec<char> = Vec::new();
                run.push(c);
                runs.push(run);
                proof {
                    assert(run@ =~= seq![c]);
                }
            }
        }
        i = i + 1;
    }
    assert(chars@.take(chars@.len() as int) == chars@);
    runs
}

/// The value of a run of digits, or `None` when it does not fit in a
/// `u64` (`u64::from_str` on such a run).
fn run_value(run: &Vec<char>) -> (res: Option<u64>)
    requires
        forall|j: int| 0 <= j < run@.len() ==> is_digit(#[trigger] run@[j]),
    ensures
        match res {
            Some(v) => digits_value(run@) <= u64::MAX && v == digits_value(run@),
            None => digits_value(run@) > u64::MAX,
        },
{
    let mut value: u64 = 0;
    let mut i: usize = 0;
    assert(run@.take(0) =~= Seq::<char>::empty());
    while i < run.len()
        invariant
            i <= run@.len(),
            forall|j: int| 0 <= j < run@.len() ==> is_digit(#[trigger] run@[j]),
            value == digits_value(run@.take(i as int)),
        decreases run.len() - i,
    {
        let c = run[i];
        let d = (c as u32 - '0' as u32) as u64;
        proof {
            assert(run@.take(i + 1) =~= run@.take(i as int).push(c));
            lemma_digits_value_grows(run@.take(i as int), c);
        }
        match value.checked_mul(10) {
            None => {
                proof {
                    lemma_digits_value_mono(run@, i + 1);
                }
                return None;
            },
            Some(m) => match m.checked_add(d) {
                None => {
                    proof {
                        lemma_digits_value_mono(run@, i + 1);
                    }
                    return None;
                },
                Some(v) => {
                    value = v;
                },
            },
        }
        i = i + 1;
    }
    assert(run@.take(run@.len() as int) == run@);
    Some(value)
}

/// Parses a version string into its numeric parts.
pub fn parse_version(v: &str) -> (parts: Vec<u64>)
    ensures
        parts@ == spec_parse_version(v@),
{
    let chars = crate::text::chars_of(v);
    let runs = digit_runs_of(&chars);
    proof {
        lemma_digit_runs_shape(chars@);
    }
    let ghost all = digit_runs(chars@);
    let mut parts: Vec<u64> = Vec::new();
    let mut k: usize = 0;
    while k < runs.len()
        invariant
            k <= runs@.len(),
            runs@.len() == all.len(),
            all == digit_runs(v@),
            forall|j: int| 0 <= j < runs@.len() ==> (#[trigger] runs@[j])@ == all[j],
            forall|j: int, q: int|
                0 <= j < all.len() && 0 <= q < all[j].len() ==> is_digit(#[trigger] all[j][q]),
            parts@ == run_values(all.take(k as int)),
        decreases runs.len() - k,
    {
        assert(all.take(k + 1).drop_last() == all.take(k as int));
        assert(runs@[k as int]@ == all[k as int]);
        assert(forall|q: int| 0 <= q < runs@[k as int]@.len() ==> is_digit(#[trigger] runs@[k as int]@[q])) by {
            assert forall|q: int| 0 <= q < runs@[k as int]@.len() implies is_digit(#[trigger] runs@[k as int]@[q]) by {
                assert(is_digit(all[k as int][q]));
            }
        }
        match run_value(&runs[k]) {
            Some(x) => {
                parts.push(x);
            },
            None => {},
        }
        k = k + 1;
    }
    assert(all.take(all.len() as int) == all);
    parts
}

/// Part `i` of a version, zero past its end.
pub open spec fn part(v: Seq<u64>, i: int) -> u64 {
    if 0 <= i < v.len() {
        v[i]
    } else {
        0
    }
}

/// Whether parts `c` are greater than parts `v` when the shorter is padded
/// with zeros: at the first position where they differ, `c` is larger.
pub open spec fn parts_greater(c: Seq<u64>, v: Seq<u64>) -> bool {
    exists|k: int|
        #![trigger part(c, k), part(v, k)]
        0 <= k && part(c, k) > part(v, k) && forall|j: int|
            0 <= j < k ==> #[trigger] part(c, j) == #[trigger] part(v, j)
}

/// Whether version `candidate` is newer than `current`.  A current version
/// without any number (a development build) accepts any candidate that has
/// one.
pub open spec fn spec_is_newer(candidate: Seq<char>, current: Seq<char>) -> bool {
    let c = spec_parse_version(candidate);
    let v = spec_parse_version(current);
    if v.len() == 0 {
        c.len() > 0
    } else {
        parts_greater(c, v)
    }
}

/// Whether `candidate` is newer than `current`; parts missing on one side
/// count as 0 (`1.0` equals `1.0.0`, `0.3.1` is newer than `0.3`).
pub fn is_newer(candidate: &str, current: &str) -> (res: bool)
    ensures
        res == spec_is_newer(candidate@, current@),
{
    let c = parse_version(candidate);
    let v = parse_version(current);
    if v.len() == 0 {
        return c.len() > 0;
    }
    let n = if c.len() > v.len() {
        c.len()
    } else {
        v.len()
    };
    let mut i: usize = 0;
    while i < n
        invariant
            i <= n,
            c@ == spec_parse_version(candidate@),
            v@ == spec_parse_version(current@),
            v@.len() > 0,
            n == c@.len() || n == v@.len(),
            c@.len() <= n && v@.len() <= n,
            forall|j: int| 0 <= j < i ==> part(c@, j) == part(v@, j),
        decreases n - i,
    {
        let a: u64 = if i < c.len() {
            c[i]
        } else {
            0
        };
        let b: u64 = if i < v.len() {
            v[i]
        } else {
            0
        };
        assert(a == part(c@, i as int) && b == part(v@, i as int));
        if a < b {
            proof {
                assert forall|k: int| 0 <= k && part(c@, k) > part(v@, k) implies exists|j: int|
                    0 <= j < k && part(c@, j) != part(v@, j) by {
                    if k > i {
                        assert(part(c@, i as int) != part(v@, i as int));
                    }
                }
                assert(!parts_greater(c@, v@));
            }
            return false;
        }
        if a > b {
            proof {
                assert(part(c@, i as int) > part(v@, i as int));
                assert(parts_greater(c@, v@));
            }
            return true;
        }
        i = i + 1;
    }
    proof {
        assert forall|k: int| 0 <= k && part(c@, k) > part(v@, k) implies exists|j: int|
            0 <= j < k && part(c@, j) != part(v@, j) by {
            if k < n {
            } else {
                assert(part(c@, k) == 0);
            }
        }
    }
    false
}


// ---------------------------------------------------------------------------
// Laws of version comparison
// ---------------------------------------------------------------------------
proof fn lemma_parts_greater_asymmetric(c: Seq<u64>, v: Seq<u64>)
    requires
        parts_greater(c, v),
    ensures
        !parts_greater(v, c),
{
    let k1 = choose|k: int|
        #![trigger part(c, k), part(v, k)]
        0 <= k && part(c, k) > part(v, k) && forall|j: int|
            0 <= j < k ==> #[trigger] part(c, j) == #[trigger] part(v, j);
    if parts_greater(v, c) {
        let k2 = choose|k: int|
            #![trigger part(v, k), part(c, k)]
            0 <= k && part(v, k) > part(c, k) && forall|j: int|
                0 <= j < k ==> #[trigger] part(v, j) == #[trigger] part(c, j);
        if k1 < k2 {
            assert(part(v, k1) == part(c, k1));
        } else if k2 < k1 {
            assert(part(c, k2) == part(v, k2));
        }
    }
}

proof fn lemma_parts_greater_transitive(a: Seq<u64>, b: Seq<u64>, c: Seq<u64>)
    requires
        parts_greater(a, b),
        parts_greater(b, c),
    ensures
        parts_greater(a, c),
{
    let k1 = choose|k: int|
        #![trigger part(a, k), part(b, k)]
        0 <= k && part(a, k) > part(b, k) && forall|j: int|
            0 <= j < k ==> #[trigger] part(a, j) == #[trigger] part(b, j);
    let k2 = choose|k: int|
        #![trigger part(b, k), part(c, k)]
        0 <= k && part(b, k) > part(c, k) && forall|j: int|
            0 <= j < k ==> #[trigger] part(b, j) == #[trigger] part(c, j);
    let k = if k1 < k2 {
        k1
    } else {
        k2
    };
    assert(part(b, k) >= part(c, k));
    assert(part(a, k) >= part(b, k));
    assert forall|j: int| 0 <= j < k implies #[trigger] part(a, j) == #[trigger] part(c, j) by {
        assert(part(a, j) == part(b, j));
        assert(part(b, j) == part(c, j));
    }
    assert(part(a, k) > part(c, k));
}

proof fn lemma_parts_greater_nonempty(c: Seq<u64>, v: Seq<u64>)
    requires
        parts_greater(c, v),
    ensures
        c.len() > 0,
{
    let k = choose|k: int|
        #![trigger part(c, k), part(v, k)]
        0 <= k && part(c, k) > part(v, k) && forall|j: int|
            0 <= j < k ==> #[trigger] part(c, j) == #[trigger] part(v, j);
    assert(part(c, k) > 0);
}

/// No version is newer than itself.
pub proof fn lemma_is_newer_irreflexive(a: Seq<char>)
    ensures
        !spec_is_newer(a, a),
{
    let v = spec_parse_version(a);
    if v.len() > 0 && parts_greater(v, v) {
        lemma_parts_greater_asymmetric(v, v);
    }
}

/// Of two versions, at most one is newer than the other.
pub proof fn lemma_is_newer_asymmetric(a: Seq<char>, b: Seq<char>)
    requires
        spec_is_newer(a, b),
    ensures
        !spec_is_newer(b, a),
{
    let pa = spec_parse_version(a);
    let pb = spec_parse_version(b);
    if pb.len() == 0 {
        if parts_greater(pb, pa) {
            lemma_parts_greater_nonempty(pb, pa);
        }
    } else {
        lemma_parts_greater_nonempty(pa, pb);
        lemma_parts_greater_asymmetric(pa, pb);
    }
}

/// Being newer is transitive.
pub proof fn lemma_is_newer_transitive(a: Seq<char>, b: Seq<char>, c: Seq<char>)
    requires
        spec_is_newer(a, b),
        spec_is_newer(b, c),
    ensures
        spec_is_newer(a, c),
{
    let pa = spec_parse_version(a);
    let pb = spec_parse_version(b);
    let pc = spec_parse_version(c);
    if pb.len() > 0 {
        lemma_parts_greater_nonempty(pa, pb);
    }
    if pc.len() > 0 {
        lemma_parts_greater_nonempty(pb, pc);
        lemma_parts_greater_transitive(pa, pb, pc);
    }
}

proof fn lemma_parse_dot_zero(s: Seq<char>)
    ensures
        spec_parse_version(s + ".0"@) == spec_parse_version(s).push(0),
{
    reveal_strlit(".0");
    let t = s + ".0"@;
    let u = s.push('.');
    assert(t.drop_last() == u);
    assert(u.drop_last() == s);
    assert(t[t.len() - 2] == '.');
    assert(digit_runs(u) == digit_runs(s));
    assert(digit_runs(t) == digit_runs(s).push(seq!['0']));
    assert(seq!['0'].drop_last() =~= Seq::<char>::empty());
    assert(seq!['0'].last() == '0');
    assert(digit_value('0') == 0);
    assert(digits_value(seq!['0'].drop_last()) == 0);
    assert(digits_value(seq!['0']) == 0);
    assert(digit_runs(t).drop_last() == digit_runs(s));
}

proof fn lemma_part_push_zero(v: Seq<u64>, k: int)
    ensures
        part(v.push(0), k) == part(v, k),
{
}

/// A trailing `.0` part changes no comparison: missing parts count as 0.
pub proof fn lemma_is_newer_trailing_zero(a: Seq<char>, b: Seq<char>)
    requires
        spec_parse_version(b).len() > 0,
    ensures
        spec_is_newer(a + ".0"@, b) == spec_is_newer(a, b),
        spec_is_newer(a, b + ".0"@) == spec_is_newer(a, b),
{
    lemma_parse_dot_zero(a);
    lemma_parse_dot_zero(b);
    let pa = spec_parse_version(a);
    let pb = spec_parse_version(b);
    assert forall|k: int| #[trigger] part(pa.push(0), k) == part(pa, k) by {
        lemma_part_push_zero(pa, k);
    }
    assert forall|k: int| #[trigger] part(pb.push(0), k) == part(pb, k) by {
        lemma_part_push_zero(pb, k);
    }
    if parts_greater(pa, pb) {
        let k = choose|k: int|
            #![trigger part(pa, k), part(pb, k)]
            0 <= k && part(pa, k) > part(pb, k) && forall|j: int|
                0 <= j < k ==> #[trigger] part(pa, j) == #[trigger] part(pb, j);
        assert(part(pa.push(0), k) > part(pb, k));
        assert(forall|j: int| 0 <= j < k ==> part(pa.push(0), j) == part(pb, j));
        assert(parts_greater(pa.push(0), pb));
        assert(part(pa, k) > part(pb.push(0), k));
        assert(forall|j: int| 0 <= j < k ==> part(pa, j) == part(pb.push(0), j));
        assert(parts_greater(pa, pb.push(0)));
    }
    if parts_greater(pa.push(0), pb) {
        let k = choose|k: int|
            #![trigger part(pa.push(0), k), part(pb, k)]
            0 <= k && part(pa.push(0), k) > part(pb, k) && forall|j: int|
                0 <= j < k ==> #[trigger] part(pa.push(0), j) == #[trigger] part(pb, j);
        assert(part(pa, k) > part(pb, k));
        assert forall|j: int| 0 <= j < k implies #[trigger] part(pa, j) == #[trigger] part(pb, j) by {
            assert(part(pa.push(0), j) == part(pb, j));
            assert(part(pa.push(0), j) == part(pa, j));
        }
    }
    if parts_greater(pa, pb.push(0)) {
        let k = choose|k: int|
            #![trigger part(pa, k), part(pb.push(0), k)]
            0 <= k && part(pa, k) > part(pb.push(0), k) && forall|j: int|
                0 <= j < k ==> #[trigger] part(pa, j) == #[trigger] part(pb.push(0), j);
        assert(part(pa, k) > part(pb, k));
        assert forall|j: int| 0 <= j < k implies #[trigger] part(pa, j) == #[trigger] part(pb, j) by {
            assert(part(pa, j) == part(pb.push(0), j));
            assert(part(pb.push(0), j) == part(pb, j));
        }
    }
}


// ---------------------------------------------------------------------------
// Manifests and sources
// ---------------------------------------------------------------------------
/// An asset listed in the update manifest.
#[derive(Debug)]
pub struct UpdateAsset {
    pub name: String,
    /// `installer` is preferred; other kinds are only shown.
    pub kind: String,
    pub url: String,
    pub sha256: String,
}

impl UpdateAsset {
    /// A field-by-field copy.
    pub fn copy(&self) -> (res: UpdateAsset)
        ensures
            res == *self,
    {
        UpdateAsset {
            name: self.name.clone(),
            kind: self.kind.clone(),
            url: self.url.clone(),
            sha256: self.sha256.clone(),
        }
    }
}

/// The update manifest (`update.json`).
#[derive(Debug)]
pub struct UpdateManifest {
    pub version: String,
    pub notes: String,
    pub assets: Vec<UpdateAsset>,
}

/// An available update, as shown to the user.
#[derive(Debug)]
pub struct UpdateInfo {
    pub version: String,
    pub notes: String,
    pub assets: Vec<UpdateAsset>,
    /// The source it came from (`github` or `gitee`).
    pub source: String,
}

fn copy_assets(v: &Vec<UpdateAsset>) -> (res: Vec<UpdateAsset>)
    ensures
        res@ == v@,
{
    let mut res: Vec<UpdateAsset> = Vec::new();
    let mut i: usize = 0;
    while i < v.len()
        invariant
            i <= v@.len(),
            res@ == v@.take(i as int),
        decreases v.len() - i,
    {
        res.push(v[i].copy());
        assert(v@.take(i + 1) == v@.take(i as int).push(v@[i as int]));
        i = i + 1;
    }
    assert(v@.take(v@.len() as int) == v@);
    res
}

/// The update sources in the order they are tried: GitHub first, Gitee as
/// the fallback for mainland-China networks.
pub open spec fn source_names() -> Seq<Seq<char>> {
    seq!["github"@, "gitee"@]
}

/// The update sources as `(name, manifest URL)`, in the order tried.
pub fn update_sources() -> (sources: Vec<(&'static str, &'static str)>)
    ensures
        sources@.len() == source_names().len(),
        forall|i: int| 0 <= i < sources@.len() ==> (#[trigger] sources@[i]).0@ == source_names()[i],
{
    let mut sources: Vec<(&'static str, &'static str)> = Vec::new();
    sources.push(("github", "https://raw.githubusercontent.com/NoraStory/file-unlocker/main/update.json"));
    sources.push(("gitee", "https://gitee.com/NoraStory/file-unlocker/raw/main/update.json"));
    sources
}

/// A fetched manifest is usable only when it lists at least one asset.
pub fn check_manifest(parsed: Result<UpdateManifest, String>) -> (res: Result<UpdateManifest, String>)
    ensures
        match parsed {
            Ok(m) => if m.assets@.len() == 0 {
                res matches Err(e) && e@ == "清单无资产条目"@
            } else {
                res == Ok::<UpdateManifest, String>(m)
            },
            Err(e) => res matches Err(f) && f@ == e@,
        },
{
    match parsed {
        Ok(m) => {
            if m.assets.len() == 0 {
                proof {
                    reveal_strlit("清单无资产条目");
                }
                Err("清单无资产条目".to_owned())
            } else {
                Ok(m)
            }
        },
        Err(e) => Err(e),
    }
}

/// Whether the first `n` fetch outcomes all failed.
pub open spec fn all_failed(fetched: Seq<Result<UpdateManifest, String>>, n: int) -> bool {
    forall|i: int| 0 <= i < n ==> (#[trigger] fetched[i]) is Err
}

/// The message when no source could be used: the last source's error.
pub open spec fn unreachable_message(fetched: Seq<Result<UpdateManifest, String>>, n: int) -> Seq<char> {
    if n == 0 {
        "未配置更新源"@
    } else {
        "全部更新源不可达（最后错误："@ + source_names()[n - 1] + ": "@ + match fetched[n - 1] {
            Ok(_) => Seq::empty(),
            Err(e) => e@,
        } + "）"@
    }
}

/// What the update check returns for the fetch outcomes of the sources
/// (`fetched[i]` for source `i`, a source not fetched being left out at the
/// end): the first source whose manifest was fetched decides, with the
/// update it offers when that is newer than `current`; when every source
/// failed, the last source's error.
pub open spec fn update_result(
    res: Result<Option<UpdateInfo>, String>,
    current: Seq<char>,
    fetched: Seq<Result<UpdateManifest, String>>,
) -> bool {
    let n = if fetched.len() < source_names().len() {
        fetched.len() as int
    } else {
        source_names().len() as int
    };
    match res {
        Ok(r) => exists|k: int|
            #![trigger fetched[k]]
            0 <= k < n && all_failed(fetched, k) && match fetched[k] {
                Ok(m) => match r {
                    Some(info) => spec_is_newer(m.version@, current) && info.version == m.version
                        && info.notes == m.notes && info.assets@ == m.assets@ && info.source@
                        == source_names()[k],
                    None => !spec_is_newer(m.version@, current),
                },
                Err(_) => false,
            },
        Err(msg) => all_failed(fetched, n) && msg@ == unreachable_message(fetched, n),
    }
}

/// Checks for an update from the fetch outcomes of the sources, tried in
/// order: a reachable source with a valid manifest decides (an update when
/// its version is newer, otherwise none) and the later sources are not
/// consulted; a failed fetch moves on to the next source.
pub fn check_for_update(current: &str, fetched: &Vec<Result<UpdateManifest, String>>) -> (res:
    Result<Option<UpdateInfo>, String>)
    ensures
        update_result(res, current@, fetched@),
{
    let sources = update_sources();
    let n = if fetched.len() < sources.len() {
        fetched.len()
    } else {
        sources.len()
    };
    let mut i: usize = 0;
    while i < n
        invariant
            i <= n,
            n <= fetched@.len(),
            n <= sources@.len(),
            sources@.len() == source_names().len(),
            forall|q: int| 0 <= q < sources@.len() ==> (#[trigger] sources@[q]).0@ == source_names()[q],
            all_failed(fetched@, i as int),
        decreases n - i,
    {
        match &fetched[i] {
            Ok(m) => {
                if is_newer(m.version.as_str(), current) {
                    let info = UpdateInfo {
                        version: m.version.clone(),
                        notes: m.notes.clone(),
                        assets: copy_assets(&m.assets),
                        source: sources[i].0.to_owned(),
                    };
                    let res: Result<Option<UpdateInfo>, String> = Ok(Some(info));
                    assert(update_result(res, current@, fetched@)) by {
                        assert(fetched@[i as int] is Ok);
                    }
                    return res;
                }
                let res: Result<Option<UpdateInfo>, String> = Ok(None);
                assert(update_result(res, current@, fetched@)) by {
                    assert(fetched@[i as int] is Ok);
                }
                return res;
            },
            Err(_) => {},
        }
        i = i + 1;
    }
    if n == 0 {
        proof {
            reveal_strlit("未配置更新源");
        }
        return Err("未配置更新源".to_owned());
    }
    let mut msg: Vec<char> = Vec::new();
    crate::text::push_str(&mut msg, "全部更新源不可达（最后错误：");
    crate::text::push_str(&mut msg, sources[n - 1].0);
    crate::text::push_str(&mut msg, ": ");
    match &fetched[n - 1] {
        Ok(_) => {},
        Err(e) => crate::text::push_str(&mut msg, e.as_str()),
    }
    crate::text::push_str(&mut msg, "）");
    proof {
        reveal_strlit("全部更新源不可达（最后错误：");
        reveal_strlit(": ");
        reveal_strlit("）");
    }
    Err(crate::text::string_of(&msg))
}


// ---------------------------------------------------------------------------
// Asset and installer names
// ---------------------------------------------------------------------------
pub open spec fn is_ascii_alpha(c: char) -> bool {
    ('a' <= c && c <= 'z') || ('A' <= c && c <= 'Z')
}

/// Whether `s` is a bare Windows file name, one that is its own file-name
/// component: not empty, no `\` or `/`, not `.` or `..`, and no drive
/// prefix such as `C:`.
pub open spec fn is_plain_file_name(s: Seq<char>) -> bool {
    &&& s.len() > 0
    &&& !s.contains('\\')
    &&& !s.contains('/')
    &&& s != "."@
    &&& s != ".."@
    &&& !(s.len() >= 2 && is_ascii_alpha(s[0]) && s[1] == ':')
}

/// The part of a file name before its first `.`.
pub open spec fn name_stem(s: Seq<char>) -> Seq<char>
    decreases s.len(),
{
    if s.len() == 0 {
        s
    } else if s.last() == '.' && !s.drop_last().contains('.') {
        s.drop_last()
    } else if s.drop_last().contains('.') {
        name_stem(s.drop_last())
    } else {
        s
    }
}

/// Whether a lowercased stem is a Windows device name: `nul`, `con`, `prn`,
/// `aux`, `com1`–`com9` or `lpt1`–`lpt9`.
pub open spec fn is_reserved_stem(t: Seq<char>) -> bool {
    ||| t == "nul"@
    ||| t == "con"@
    ||| t == "prn"@
    ||| t == "aux"@
    ||| (t.len() == 4 && (t.take(3) == "com"@ || t.take(3) == "lpt"@) && '1' <= t[3] && t[3] <= '9')
}

/// What the asset-name check says about `raw`.
pub open spec fn asset_name_result(res: Result<String, String>, raw: Seq<char>) -> bool {
    if !is_plain_file_name(raw) {
        res matches Err(e) && e@ == "非法的资产文件名："@ + raw
    } else if is_reserved_stem(crate::text::spec_to_lowercase(name_stem(raw))) {
        res matches Err(e) && e@ == "非法的资产文件名（Windows 保留名）："@ + raw
    } else {
        res matches Ok(n) && n@ == raw
    }
}

fn index_of_char(s: &Vec<char>, c: char) -> (res: Option<usize>)
    ensures
        match res {
            Some(i) => i < s@.len() && s@[i as int] == c && !s@.take(i as int).contains(c),
            None => !s@.contains(c),
        },
{
    let mut i: usize = 0;
    while i < s.len()
        invariant
            i <= s@.len(),
            !s@.take(i as int).contains(c),
        decreases s.len() - i,
    {
        if s[i] == c {
            return Some(i);
        }
        proof {
            if s@.take(i + 1).contains(c) {
                let k = choose|k: int| 0 <= k < i + 1 && #[trigger] s@.take(i + 1)[k] == c;
                assert(s@.take(i as int)[k] == c);
            }
        }
        i = i + 1;
    }
    assert(s@.take(s@.len() as int) == s@);
    None
}

proof fn lemma_name_stem(s: Seq<char>, i: int)
    requires
        0 <= i <= s.len(),
        !s.take(i).contains('.'),
        i == s.len() || s[i] == '.',
    ensures
        name_stem(s) == s.take(i),
    decreases s.len(),
{
    if s.len() == 0 {
    } else if i == s.len() {
        assert(s.take(i) == s);
        assert(s.drop_last() == s.take(i - 1));
        if s.drop_last().contains('.') {
            let k = choose|k: int| 0 <= k < s.len() - 1 && s.drop_last()[k] == '.';
            assert(s.take(i)[k] == '.');
        }
        if s.last() == '.' {
            assert(s.take(i)[s.len() - 1] == '.');
        }
    } else {
        let d = s.drop_last();
        if i == s.len() - 1 {
            assert(d == s.take(i));
        } else {
            assert(d[i] == '.');
            assert(d.contains('.'));
            assert(d.take(i) == s.take(i));
            lemma_name_stem(d, i);
        }
    }
}

/// Checks that an asset name from the manifest is a bare file name and not
/// a Windows device name (compared case-insensitively on the part before
/// the first `.`): a name with a path in it could write outside the
/// download folder, and `CON.txt` or `com1.exe` would be written to a
/// device.
pub fn validate_asset_name(raw: &str) -> (res: Result<String, String>)
    ensures
        asset_name_result(res, raw@),
{
    let chars = crate::text::chars_of(raw);
    let plain = chars.len() > 0 && index_of_char(&chars, '\\').is_none() && index_of_char(
        &chars,
        '/',
    ).is_none() && !crate::text::str_eq(raw, ".") && !crate::text::str_eq(raw, "..") && !(
    chars.len() >= 2 && (('a' <= chars[0] && chars[0] <= 'z') || ('A' <= chars[0] && chars[0]
        <= 'Z')) && chars[1] == ':');
    if !plain {
        let mut msg = crate::text::chars_of("非法的资产文件名：");
        crate::text::push_str(&mut msg, raw);
        proof {
            reveal_strlit("非法的资产文件名：");
        }
        return Err(crate::text::string_of(&msg));
    }
    let end = match index_of_char(&chars, '.') {
        Some(i) => i,
        None => chars.len(),
    };
    proof {
        if end == chars@.len() {
            assert(chars@.take(end as int) == chars@);
        }
        lemma_name_stem(chars@, end as int);
    }
    let stem_chars = crate::text::take_chars(&chars, end);
    let stem_text = crate::text::string_of(&stem_chars);
    let stem = crate::text::to_lowercase(stem_text.as_str());
    let t = crate::text::chars_of(stem.as_str());
    let reserved = crate::text::str_eq(stem.as_str(), "nul") || crate::text::str_eq(stem.as_str(), "con")
        || crate::text::str_eq(stem.as_str(), "prn") || crate::text::str_eq(stem.as_str(), "aux") || (
    t.len() == 4 && (crate::text::starts_with_chars(&t, &crate::text::chars_of("com"))
        || crate::text::starts_with_chars(&t, &crate::text::chars_of("lpt"))) && '1' <= t[3]
        && t[3] <= '9');
    proof {
        reveal_strlit("com");
        reveal_strlit("lpt");
        assert(t@.len() == 4 ==> (crate::text::seq_starts_with(t@, "com"@) == (t@.take(3) == "com"@)));
        assert(t@.len() == 4 ==> (crate::text::seq_starts_with(t@, "lpt"@) == (t@.take(3) == "lpt"@)));
        assert(t@.take(3) =~= t@.subrange(0, 3));
    }
    if reserved {
        let mut msg = crate::text::chars_of("非法的资产文件名（Windows 保留名）：");
        crate::text::push_str(&mut msg, raw);
        proof {
            reveal_strlit("非法的资产文件名（Windows 保留名）：");
        }
        return Err(crate::text::string_of(&msg));
    }
    Ok(raw.to_owned())
}

/// What the installer check says about a file: its name must start with
/// `fileunlocker` and end with `-setup.exe` once lowercased, and it must be
/// an existing file.
pub open spec fn installer_check(res: Result<(), String>, file_name: Seq<char>, is_file: bool) -> bool {
    let lower = crate::text::spec_to_lowercase(file_name);
    if !crate::text::seq_starts_with(lower, "fileunlocker"@) {
        res matches Err(e) && e@ == "拒绝启动：不是 FileUnlocker 安装程序"@
    } else if !crate::text::seq_ends_with(lower, "-setup.exe"@) {
        res matches Err(e) && e@ == "拒绝启动：不是 FileUnlocker 安装程序（应为 *-setup.exe）"@
    } else if !is_file {
        res matches Err(e) && e@ == "安装程序文件不存在"@
    } else {
        res is Ok
    }
}

/// Only a downloaded FileUnlocker installer (`FileUnlocker…-setup.exe`) is
/// ever launched; a portable executable, any other file or a missing file
/// is refused.  `file_name` is the file-name part of the path.
pub fn check_installer(file_name: &str, is_file: bool) -> (res: Result<(), String>)
    ensures
        installer_check(res, file_name@, is_file),
{
    let lower = crate::text::to_lowercase(file_name);
    let l = crate::text::chars_of(lower.as_str());
    if !crate::text::starts_with_chars(&l, &crate::text::chars_of("fileunlocker")) {
        proof {
            reveal_strlit("拒绝启动：不是 FileUnlocker 安装程序");
        }
        return Err("拒绝启动：不是 FileUnlocker 安装程序".to_owned());
    }
    if !crate::text::ends_with_chars(&l, &crate::text::chars_of("-setup.exe")) {
        proof {
            reveal_strlit("拒绝启动：不是 FileUnlocker 安装程序（应为 *-setup.exe）");
        }
        return Err("拒绝启动：不是 FileUnlocker 安装程序（应为 *-setup.exe）".to_owned());
    }
    if !is_file {
        proof {
            reveal_strlit("安装程序文件不存在");
        }
        return Err("安装程序文件不存在".to_owned());
    }
    Ok(())
}

// ---------------------------------------------------------------------------
// Download integrity
// ---------------------------------------------------------------------------
/// The SHA-256 digest of `data` (FIPS 180-4), as computed by the `sha2`
/// crate.
pub uninterp spec fn spec_sha256(data: Seq<u8>) -> Seq<u8>;

/// `<sha2::Sha256 as Digest>::digest`.  The contract names the digest of
/// the bytes and states its size, 32 bytes (the `U32` output size of
/// `Sha256`); nothing else about the hash function is stated.
#[verifier::external_body]
fn sha256(data: &[u8]) -> (res: Vec<u8>)
    ensures
        res@ == spec_sha256(data@),
        res@.len() == 32,
{
    sha2::Sha256::digest(data).to_vec()
}

/// Lowercase hexadecimal text of bytes, two digits per byte (`{:x}` of a
/// digest).
pub open spec fn spec_hex(bytes: Seq<u8>) -> Seq<char>
    decreases bytes.len(),
{
    if bytes.len() == 0 {
        Seq::empty()
    } else {
        spec_hex(bytes.drop_last()).push(hex_digit((bytes.last() / 16) as nat)).push(
            hex_digit((bytes.last() % 16) as nat),
        )
    }
}

/// Lowercase hexadecimal text of `bytes`.
pub fn hex_string(bytes: &Vec<u8>) -> (res: String)
    ensures
        res@ == spec_hex(bytes@),
{
    let mut out: Vec<char> = Vec::new();
    let mut i: usize = 0;
    while i < bytes.len()
        invariant
            i <= bytes@.len(),
            out@ == spec_hex(bytes@.take(i as int)),
        decreases bytes.len() - i,
    {
        assert(bytes@.take(i + 1).drop_last() == bytes@.take(i as int));
        let b = bytes[i];
        out.push(hex_char(b / 16));
        out.push(hex_char(b % 16));
        i = i + 1;
    }
    assert(bytes@.take(bytes@.len() as int) == bytes@);
    crate::text::string_of(&out)
}

/// Whether two texts are equal ignoring ASCII case
/// (`str::eq_ignore_ascii_case`).
pub open spec fn eq_ignore_ascii_case(a: Seq<char>, b: Seq<char>) -> bool {
    a.len() == b.len() && crate::text::seq_ascii_lower(a) == crate::text::seq_ascii_lower(b)
}

/// What the integrity check says about downloaded bytes: they pass when
/// their SHA-256, in hexadecimal, equals the expected digest ignoring case.
pub open spec fn download_check_result(res: Result<(), String>, data: Seq<u8>, expected: Seq<char>) -> bool {
    let digest = spec_hex(spec_sha256(data));
    if eq_ignore_ascii_case(digest, expected) {
        res is Ok
    } else {
        res matches Err(e) && e@ == "SHA256 校验失败：期望 "@ + expected + "，实际 "@ + digest
    }
}

/// Checks downloaded bytes against the SHA-256 digest listed in the
/// manifest.
pub fn check_download(data: &[u8], expected: &str) -> (res: Result<(), String>)
    ensures
        download_check_result(res, data@, expected@),
{
    let digest = sha256(data);
    let hex = hex_string(&digest);
    let a = crate::text::chars_of(hex.as_str());
    let b = crate::text::chars_of(expected);
    let same = a.len() == b.len() && crate::text::chars_eq(
        &crate::text::ascii_lower_chars(&a),
        &crate::text::ascii_lower_chars(&b),
    );
    if same {
        Ok(())
    } else {
        let mut msg = crate::text::chars_of("SHA256 校验失败：期望 ");
        crate::text::push_str(&mut msg, expected);
        crate::text::push_str(&mut msg, "，实际 ");
        crate::text::push_str(&mut msg, hex.as_str());
        proof {
            reveal_strlit("SHA256 校验失败：期望 ");
            reveal_strlit("，实际 ");
        }
        Err(crate::text::string_of(&msg))
    }
}

} // verus!
