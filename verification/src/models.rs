//! Model files: what is known of one, and how its size reads.

use vstd::prelude::*;
use vstd::string::*;

verus! {

/// What is known of a model file.
#[derive(Debug)]
pub struct ModelInfo {
    /// The whole path of the file.
    pub path: String,
    /// The file's name alone.
    pub name: String,
    /// Its size in bytes.
    pub size: u64,
    /// Its size for a reader, such as `4.20 GB`.
    pub size_human: String,
    /// When it was last changed, in seconds since 1970.
    pub modified: i64,
}

impl Clone for ModelInfo {
    fn clone(&self) -> (r: Self)
        ensures
            r.path@ == self.path@,
            r.name@ == self.name@,
            r.size == self.size,
            r.size_human@ == self.size_human@,
            r.modified == self.modified,
    {
        ModelInfo {
            path: self.path.clone(),
            name: self.name.clone(),
            size: self.size,
            size_human: self.size_human.clone(),
            modified: self.modified,
        }
    }
}

impl ModelInfo {
    /// The record of a file with this path, name, size and time of change;
    /// the readable size is worked out from the size.
    pub fn new(path: String, name: String, size: u64, modified: i64) -> (r: Self)
        ensures
            r.path@ == path@,
            r.name@ == name@,
            r.size == size,
            r.size_human@ == size_text(size as nat),
            r.modified == modified,
    {
        ModelInfo { path, name, size, size_human: format_size(size), modified }
    }
}

/// The decimal digit for `d`.
pub open spec fn digit(d: nat) -> char {
    ('0' as u8 + (d % 10) as u8) as char
}

/// `n` in decimal, without leading zeros.
pub open spec fn decimal(n: nat) -> Seq<char>
    decreases n,
{
    if n < 10 {
        seq![digit(n)]
    } else {
        decimal(n / 10).push(digit(n % 10))
    }
}

/// The unit in which a size is given: the largest of B, KB, MB, GB and TB
/// of which the size holds at least one.
pub open spec fn unit_index(bytes: nat) -> nat {
    if bytes < 1024 {
        0
    } else if bytes < 1024 * 1024 {
        1
    } else if bytes < 1024 * 1024 * 1024 {
        2
    } else if bytes < 1024 * 1024 * 1024 * 1024 {
        3
    } else {
        4
    }
}

/// The bytes in one unit.
pub open spec fn unit_bytes(unit: nat) -> nat {
    if unit == 0 {
        1
    } else if unit == 1 {
        1024
    } else if unit == 2 {
        1024 * 1024
    } else if unit == 3 {
        1024 * 1024 * 1024
    } else {
        1024 * 1024 * 1024 * 1024
    }
}

/// The name of a unit.
pub open spec fn unit_name(unit: nat) -> Seq<char> {
    if unit == 0 {
        seq!['B']
    } else if unit == 1 {
        seq!['K', 'B']
    } else if unit == 2 {
        seq!['M', 'B']
    } else if unit == 3 {
        seq!['G', 'B']
    } else {
        seq!['T', 'B']
    }
}

/// `n / d` rounded to the nearest whole number, a half to the even one.
pub open spec fn rounded(n: nat, d: nat) -> nat {
    let q = n / d;
    let r = n % d;
    if 2 * r > d || (2 * r == d && q % 2 == 1) {
        q + 1
    } else {
        q
    }
}

/// A size in hundredths of its unit.
pub open spec fn hundredths(bytes: nat) -> nat {
    rounded(bytes * 100, unit_bytes(unit_index(bytes)))
}

/// A size as a reader sees it: `0 B` for nothing, else the size in its
/// unit with two decimals, a blank and the unit's name.
pub open spec fn size_text(bytes: nat) -> Seq<char> {
    if bytes == 0 {
        seq!['0', ' ', 'B']
    } else {
        let h = hundredths(bytes);
        decimal(h / 100) + seq!['.', digit(h % 100 / 10), digit(h % 10), ' '] + unit_name(
            unit_index(bytes),
        )
    }
}

fn digit_text(d: u64) -> (r: &'static str)
    requires
        d < 10,
    ensures
        r@ == seq![digit(d as nat)],
{
    proof {
        reveal_strlit("0");
        reveal_strlit("1");
        reveal_strlit("2");
        reveal_strlit("3");
        reveal_strlit("4");
        reveal_strlit("5");
        reveal_strlit("6");
        reveal_strlit("7");
        reveal_strlit("8");
        reveal_strlit("9");
    }
    let r = if d == 0 {
        "0"
    } else if d == 1 {
        "1"
    } else if d == 2 {
        "2"
    } else if d == 3 {
        "3"
    } else if d == 4 {
        "4"
    } else if d == 5 {
        "5"
    } else if d == 6 {
        "6"
    } else if d == 7 {
        "7"
    } else if d == 8 {
        "8"
    } else {
        "9"
    };
    assert(r@ =~= seq![digit(d as nat)]);
    r
}

fn unit_text(unit: usize) -> (r: &'static str)
    requires
        unit <= 4,
    ensures
        r@ == unit_name(unit as nat),
{
    proof {
        reveal_strlit("B");
        reveal_strlit("KB");
        reveal_strlit("MB");
        reveal_strlit("GB");
        reveal_strlit("TB");
    }
    let r = if unit == 0 {
        "B"
    } else if unit == 1 {
        "KB"
    } else if unit == 2 {
        "MB"
    } else if unit == 3 {
        "GB"
    } else {
        "TB"
    };
    assert(r@ =~= unit_name(unit as nat));
    r
}

/// Writes `n` in decimal.
pub fn decimal_text(n: u64) -> (r: String)
    ensures
        r@ == decimal(n as nat),
    decreases n,
{
    if n < 10 {
        digit_text(n).to_owned()
    } else {
        let mut r = decimal_text(n / 10);
        r.append(digit_text(n % 10));
        r
    }
}

/// Writes a size for a reader.
pub fn format_size(bytes: u64) -> (r: String)
    ensures
        r@ == size_text(bytes as nat),
{
    if bytes == 0 {
        proof {
            reveal_strlit("0 B");
        }
        let r = "0 B".to_owned();
        assert(r@ =~= size_text(0));
        return r;
    }
    let unit: usize = if bytes < 1024 {
        0
    } else if bytes < 1024 * 1024 {
        1
    } else if bytes < 1024 * 1024 * 1024 {
        2
    } else if bytes < 1024 * 1024 * 1024 * 1024 {
        3
    } else {
        4
    };
    let d: u128 = if unit == 0 {
        1
    } else if unit == 1 {
        1024
    } else if unit == 2 {
        1024 * 1024
    } else if unit == 3 {
        1024 * 1024 * 1024
    } else {
        1024 * 1024 * 1024 * 1024
    };
    let n: u128 = bytes as u128 * 100;
    let q: u128 = n / d;
    let rest: u128 = n % d;
    let h: u128 = if 2 * rest > d || (2 * rest == d && q % 2 == 1) {
        q + 1
    } else {
        q
    };
    assert(h == hundredths(bytes as nat));
    assert(h / 100 <= u64::MAX);
    proof {
        reveal_strlit(".");
        reveal_strlit(" ");
    }
    let mut r = decimal_text((h / 100) as u64);
    r.append(".");
    r.append(digit_text((h % 100 / 10) as u64));
    r.append(digit_text((h % 10) as u64));
    r.append(" ");
    r.append(unit_text(unit));
    assert(r@ =~= size_text(bytes as nat));
    r
}


/// [`ModelInfo`] as a mathematical value.
pub struct ModelView {
    pub path: Seq<char>,
    pub name: Seq<char>,
    pub size: u64,
    pub size_human: Seq<char>,
    pub modified: i64,
}

impl View for ModelInfo {
    type V = ModelView;

    open spec fn view(&self) -> ModelView {
        ModelView {
            path: self.path@,
            name: self.name@,
            size: self.size,
            size_human: self.size_human@,
            modified: self.modified,
        }
    }
}

/// The models in `models`, one for one.
pub open spec fn model_views(models: Seq<ModelInfo>) -> Seq<ModelView> {
    Seq::new(models.len(), |i: int| models[i]@)
}

/// What a scan of a directory tells of one of its entries.
#[derive(Debug)]
pub struct ScannedFile {
    /// The whole path of the entry.
    pub path: String,
    /// The entry's name alone.
    pub name: String,
    /// What follows the last dot of the name, if anything does.
    pub extension: Option<String>,
    /// The size in bytes, for a file of which it could be read.
    pub size: Option<u64>,
    /// When the entry was last changed, in seconds since 1970; 0 where that
    /// is not known.
    pub modified: i64,
}

/// Whether `extension` is that of a model file: `gguf`, in small or in
/// capital letters.
pub open spec fn is_model_extension(extension: Seq<char>) -> bool {
    &&& extension.len() == 4
    &&& (extension[0] == 'g' || extension[0] == 'G')
    &&& (extension[1] == 'g' || extension[1] == 'G')
    &&& (extension[2] == 'u' || extension[2] == 'U')
    &&& (extension[3] == 'f' || extension[3] == 'F')
}

/// Computes [`is_model_extension`].
pub fn is_gguf(extension: &str) -> (r: bool)
    ensures
        r == is_model_extension(extension@),
{
    let chars = crate::text::chars_of(extension);
    chars.len() == 4 && (chars[0] == 'g' || chars[0] == 'G') && (chars[1] == 'g' || chars[1]
        == 'G') && (chars[2] == 'u' || chars[2] == 'U') && (chars[3] == 'f' || chars[3] == 'F')
}

/// Whether an entry is a model file: a file with the extension of one,
/// whose size could be read.
pub open spec fn is_model_file(extension: Option<Seq<char>>, size: Option<u64>) -> bool {
    extension matches Some(e) && is_model_extension(e) && size is Some
}

/// The first of `flags` that is set.
pub open spec fn first_set(flags: Seq<bool>) -> Option<int>
    decreases flags.len(),
{
    if flags.len() == 0 {
        None
    } else if flags.first() {
        Some(0)
    } else {
        match first_set(flags.drop_first()) {
            Some(at) => Some(at + 1),
            None => None,
        }
    }
}

/// Computes [`first_set`]: of several places to look in, the first that
/// holds what is looked for.
pub fn first_present(flags: &Vec<bool>) -> (r: Option<usize>)
    ensures
        match r {
            Some(at) => first_set(flags@) == Some(at as int) && at < flags.len() && flags@[at as int],
            None => first_set(flags@) is None,
        },
        forall|j: int| 0 <= j < flags.len() && flags@[j] ==> r is Some && r->0 <= j,
{
    let mut i: usize = 0;
    assert(flags@.skip(0) == flags@);
    while i < flags.len()
        invariant
            i <= flags.len(),
            forall|j: int| 0 <= j < i ==> !flags@[j],
            first_set(flags@) == match first_set(flags@.skip(i as int)) {
                Some(at) => Some(at + i),
                None => None,
            },
        decreases flags.len() - i,
    {
        let ghost rest = flags@.skip(i as int);
        assert(rest.first() == flags@[i as int]);
        assert(rest.drop_first() == flags@.skip(i + 1));
        if flags[i] {
            return Some(i);
        }
        i = i + 1;
    }
    None
}

/// Whether an entry with this extension may be a model file.
pub open spec fn is_candidate(extension: Option<String>) -> bool {
    extension matches Some(e) && is_model_extension(e@)
}

/// Of the entries of a models directory, the first with the extension of
/// a model file: the model that an engine loads.
pub fn find_model(extensions: &Vec<Option<String>>) -> (r: Option<usize>)
    ensures
        r matches Some(at) ==> at < extensions.len() && is_candidate(extensions@[at as int]),
        forall|j: int|
            0 <= j < extensions.len() && #[trigger] is_candidate(extensions@[j]) ==> r is Some
                && r->0 <= j,
{
    let mut i: usize = 0;
    while i < extensions.len()
        invariant
            i <= extensions.len(),
            forall|j: int| 0 <= j < i ==> !#[trigger] is_candidate(extensions@[j]),
        decreases extensions.len() - i,
    {
        let found = match &extensions[i] {
            Some(extension) => is_gguf(extension.as_str()),
            None => false,
        };
        if found {
            return Some(i);
        }
        i = i + 1;
    }
    None
}

/// Whether `a` comes before `b` or is `b`, byte by byte.
pub open spec fn lex_le(a: Seq<u8>, b: Seq<u8>) -> bool
    decreases a.len(),
{
    if a.len() == 0 {
        true
    } else if b.len() == 0 {
        false
    } else if a.first() != b.first() {
        a.first() < b.first()
    } else {
        lex_le(a.drop_first(), b.drop_first())
    }
}

/// Whether the name `a` sorts before the name `b` or is `b`.
pub open spec fn name_le(a: Seq<char>, b: Seq<char>) -> bool {
    lex_le(vstd::utf8::encode_utf8(a), vstd::utf8::encode_utf8(b))
}

/// Computes [`name_le`].
pub fn sorts_before(a: &str, b: &str) -> (r: bool)
    ensures
        r == name_le(a@, b@),
{
    let x = a.as_bytes();
    let y = b.as_bytes();
    let mut i: usize = 0;
    assert(x@.skip(0) == x@ && y@.skip(0) == y@);
    while i < x.len() && i < y.len()
        invariant
            i <= x.len(),
            i <= y.len(),
            x@ == vstd::utf8::encode_utf8(a@),
            y@ == vstd::utf8::encode_utf8(b@),
            lex_le(x@, y@) == lex_le(x@.skip(i as int), y@.skip(i as int)),
        decreases x.len() - i,
    {
        let ghost p = x@.skip(i as int);
        let ghost q = y@.skip(i as int);
        assert(p.first() == x@[i as int] && q.first() == y@[i as int]);
        assert(p.drop_first() == x@.skip(i + 1) && q.drop_first() == y@.skip(i + 1));
        if x[i] != y[i] {
            return x[i] < y[i];
        }
        i = i + 1;
    }
    x.len() <= y.len()
}

/// `sorted` with `model` put in: behind every model whose name sorts before
/// its own or is its own, up to the first whose name does not.
pub open spec fn placed(sorted: Seq<ModelView>, model: ModelView) -> Seq<ModelView>
    decreases sorted.len(),
{
    if sorted.len() == 0 {
        seq![model]
    } else if !name_le(sorted.first().name, model.name) {
        seq![model] + sorted
    } else {
        seq![sorted.first()] + placed(sorted.drop_first(), model)
    }
}

/// `models` sorted by name; models of one name stay in their order.
pub open spec fn by_name(models: Seq<ModelView>) -> Seq<ModelView>
    decreases models.len(),
{
    if models.len() == 0 {
        Seq::empty()
    } else {
        placed(by_name(models.drop_last()), models.last())
    }
}

/// Putting a model in at the first place whose model sorts behind it is
/// [`placed`].
pub proof fn lemma_placed(sorted: Seq<ModelView>, model: ModelView, at: int)
    requires
        0 <= at <= sorted.len(),
        forall|j: int| 0 <= j < at ==> name_le(sorted[j].name, model.name),
        at < sorted.len() ==> !name_le(sorted[at].name, model.name),
    ensures
        placed(sorted, model) == sorted.insert(at, model),
    decreases at,
{
    if at == 0 {
        assert(sorted.insert(0, model) =~= seq![model] + sorted);
    } else {
        let rest = sorted.drop_first();
        assert forall|j: int| 0 <= j < at - 1 implies name_le(rest[j].name, model.name) by {
            assert(rest[j] == sorted[j + 1]);
        }
        lemma_placed(rest, model, at - 1);
        assert(sorted.insert(at, model) =~= seq![sorted.first()] + rest.insert(at - 1, model));
    }
}

/// Sorts models by name; models of one name stay in their order.
pub fn sort_by_name(models: Vec<ModelInfo>) -> (sorted: Vec<ModelInfo>)
    ensures
        model_views(sorted@) == by_name(model_views(models@)),
{
    let ghost all = model_views(models@);
    let n = models.len();
    let mut rest = models;
    let mut reversed: Vec<ModelInfo> = Vec::new();
    while rest.len() > 0
        invariant
            n == all.len(),
            rest.len() + reversed.len() == n,
            model_views(rest@) == all.take(rest.len() as int),
            forall|j: int|
                0 <= j < reversed.len() ==> (#[trigger] reversed@[j])@ == all[n - 1 - j],
        decreases rest.len(),
    {
        let ghost before = rest@;
        let model = rest.pop().unwrap();
        assert(model_views(before)[rest.len() as int] == model@);
        assert(model_views(rest@) =~= all.take(rest.len() as int));
        reversed.push(model);
    }
    let mut sorted: Vec<ModelInfo> = Vec::new();
    assert(model_views(sorted@) =~= by_name(all.take(0)));
    while reversed.len() > 0
        invariant
            n == all.len(),
            reversed.len() <= n,
            forall|j: int|
                0 <= j < reversed.len() ==> (#[trigger] reversed@[j])@ == all[n - 1 - j],
            model_views(sorted@) == by_name(all.take(n - reversed.len())),
        decreases reversed.len(),
    {
        let ghost done = n - reversed.len();
        let model = reversed.pop().unwrap();
        assert(model@ == all[done]);
        let mut at: usize = 0;
        while at < sorted.len() && sorts_before(sorted[at].name.as_str(), model.name.as_str())
            invariant
                at <= sorted.len(),
                forall|j: int|
                    0 <= j < at ==> name_le(model_views(sorted@)[j].name, model@.name),
            decreases sorted.len() - at,
        {
            assert(model_views(sorted@)[at as int] == sorted@[at as int]@);
            at = at + 1;
        }
        proof {
            let before = model_views(sorted@);
            if at < sorted.len() {
                assert(before[at as int] == sorted@[at as int]@);
            }
            lemma_placed(before, model@, at as int);
            assert(all.take(done + 1).drop_last() == all.take(done));
            assert(all.take(done + 1).last() == all[done]);
        }
        let ghost before = model_views(sorted@);
        sorted.insert(at, model);
        assert(model_views(sorted@) =~= before.insert(at as int, model@));
    }
    assert(all.take(n as int) == all);
    sorted
}

/// The models among the entries of a directory, sorted by name.
pub open spec fn scanned(files: Seq<ScannedFile>) -> Seq<ModelView> {
    by_name(models_among(files))
}

/// The models among `files`, in the order of `files`.
pub open spec fn models_among(files: Seq<ScannedFile>) -> Seq<ModelView>
    decreases files.len(),
{
    if files.len() == 0 {
        Seq::empty()
    } else {
        models_among(files.drop_last()) + model_of(files.last())
    }
}

/// An entry as a model, if it is a model file.
pub open spec fn model_of(file: ScannedFile) -> Seq<ModelView> {
    if is_model_file(
        match file.extension {
            Some(e) => Some(e@),
            None => None,
        },
        file.size,
    ) {
        seq![
            ModelView {
                path: file.path@,
                name: file.name@,
                size: file.size->0,
                size_human: size_text(file.size->0 as nat),
                modified: file.modified,
            },
        ]
    } else {
        Seq::empty()
    }
}

/// Makes the list of the models in a directory from what a scan of it has
/// found: the model files, each with its readable size, sorted by name.
pub fn scan_models(files: &Vec<ScannedFile>) -> (models: Vec<ModelInfo>)
    ensures
        model_views(models@) == scanned(files@),
{
    let mut models: Vec<ModelInfo> = Vec::new();
    let mut i: usize = 0;
    assert(model_views(models@) =~= models_among(files@.take(0)));
    while i < files.len()
        invariant
            i <= files.len(),
            model_views(models@) == models_among(files@.take(i as int)),
        decreases files.len() - i,
    {
        let file = &files[i];
        let ghost before = model_views(models@);
        assert(files@.take(i + 1).drop_last() == files@.take(i as int));
        assert(files@.take(i + 1).last() == files@[i as int]);
        let wanted = match &file.extension {
            Some(extension) => is_gguf(extension.as_str()),
            None => false,
        };
        if wanted {
            match file.size {
                Some(size) => {
                    models.push(
                        ModelInfo::new(file.path.clone(), file.name.clone(), size, file.modified),
                    );
                    assert(model_views(models@) =~= before + model_of(*file));
                },
                None => {},
            }
        }
        assert(model_views(models@) =~= before + model_of(*file));
        i = i + 1;
    }
    assert(files@.take(files.len() as int) == files@);
    sort_by_name(models)
}

/// Whether one of `models` has this path.
pub open spec fn has_path(models: Seq<ModelView>, path: Seq<char>) -> bool {
    exists|i: int| 0 <= i < models.len() && (#[trigger] models[i]).path == path
}

/// `all` with those of `found` added whose path is new.
pub open spec fn merged(all: Seq<ModelView>, found: Seq<ModelView>) -> Seq<ModelView>
    decreases found.len(),
{
    if found.len() == 0 {
        all
    } else if has_path(all, found.first().path) {
        merged(all, found.drop_first())
    } else {
        merged(all.push(found.first()), found.drop_first())
    }
}

/// Adds the models found in one more place to those found so far, but no
/// path twice.
pub fn merge_models(all: &mut Vec<ModelInfo>, found: &Vec<ModelInfo>)
    ensures
        model_views(final(all)@) == merged(model_views(old(all)@), model_views(found@)),
{
    let ghost goal = merged(model_views(old(all)@), model_views(found@));
    let mut i: usize = 0;
    assert(model_views(found@).skip(0) == model_views(found@));
    while i < found.len()
        invariant
            i <= found.len(),
            goal == merged(model_views(all@), model_views(found@).skip(i as int)),
        decreases found.len() - i,
    {
        let ghost rest = model_views(found@).skip(i as int);
        let ghost before = model_views(all@);
        assert(rest.first() == found@[i as int]@);
        assert(rest.drop_first() == model_views(found@).skip(i + 1));
        let model = &found[i];
        let mut known = false;
        let mut k: usize = 0;
        while k < all.len()
            invariant
                k <= all.len(),
                before == model_views(all@),
                known == has_path(before.take(k as int), model@.path),
            decreases all.len() - k,
        {
            let ghost seen = before.take(k as int);
            let ghost more = before.take(k + 1);
            assert(more == seen.push(all@[k as int]@));
            let same = all[k].path == model.path;
            proof {
                if same {
                    assert(more[k as int].path == model@.path);
                } else if known {
                    let w = choose|w: int|
                        0 <= w < seen.len() && (#[trigger] seen[w]).path == model@.path;
                    assert(more[w].path == model@.path);
                } else {
                    assert forall|w: int| 0 <= w < more.len() implies (#[trigger] more[w]).path
                        != model@.path by {
                        if w < k {
                            assert(seen[w] == more[w]);
                        }
                    }
                }
            }
            if same {
                known = true;
            }
            k = k + 1;
        }
        assert(before.take(all.len() as int) == before);
        if !known {
            all.push(model.clone());
            assert(model_views(all@) =~= before.push(model@));
        }
        i = i + 1;
    }
}


/// Of two texts one comes before the other or is the other.
pub proof fn lemma_lex_total(a: Seq<u8>, b: Seq<u8>)
    ensures
        lex_le(a, b) || lex_le(b, a),
    decreases a.len(),
{
    if a.len() > 0 && b.len() > 0 && a.first() == b.first() {
        lemma_lex_total(a.drop_first(), b.drop_first());
    }
}

/// What comes before a text comes before everything that the text comes
/// before.
pub proof fn lemma_lex_transitive(a: Seq<u8>, b: Seq<u8>, c: Seq<u8>)
    requires
        lex_le(a, b),
        lex_le(b, c),
    ensures
        lex_le(a, c),
    decreases a.len(),
{
    if a.len() > 0 && b.len() > 0 && c.len() > 0 && a.first() == b.first() && b.first()
        == c.first() {
        lemma_lex_transitive(a.drop_first(), b.drop_first(), c.drop_first());
    }
}

/// Each model's name sorts before those of the models behind it, or is
/// theirs.
pub open spec fn in_name_order(models: Seq<ModelView>) -> bool {
    forall|i: int, j: int|
        0 <= i < j < models.len() ==> name_le(#[trigger] models[i].name, #[trigger] models[j].name)
}

/// The place at which [`placed`] puts a model.
pub open spec fn place_for(sorted: Seq<ModelView>, model: ModelView) -> int
    decreases sorted.len(),
{
    if sorted.len() == 0 || !name_le(sorted.first().name, model.name) {
        0
    } else {
        1 + place_for(sorted.drop_first(), model)
    }
}

proof fn lemma_place_for(sorted: Seq<ModelView>, model: ModelView)
    ensures
        0 <= place_for(sorted, model) <= sorted.len(),
        forall|j: int|
            0 <= j < place_for(sorted, model) ==> name_le((#[trigger] sorted[j]).name, model.name),
        place_for(sorted, model) < sorted.len() ==> !name_le(
            sorted[place_for(sorted, model)].name,
            model.name,
        ),
    decreases sorted.len(),
{
    if sorted.len() == 0 || !name_le(sorted.first().name, model.name) {
    } else {
        let rest = sorted.drop_first();
        lemma_place_for(rest, model);
        assert forall|j: int| 0 <= j < place_for(sorted, model) implies name_le(
            (#[trigger] sorted[j]).name,
            model.name,
        ) by {
            if j > 0 {
                assert(sorted[j] == rest[j - 1]);
            }
        }
        if place_for(sorted, model) < sorted.len() {
            assert(sorted[place_for(sorted, model)] == rest[place_for(rest, model)]);
        }
    }
}

/// Sorting by name puts the models in the order of their names and
/// neither loses nor adds a model.
pub proof fn law_sorted_by_name(models: Seq<ModelView>)
    ensures
        in_name_order(by_name(models)),
        by_name(models).to_multiset() == models.to_multiset(),
        by_name(models).len() == models.len(),
    decreases models.len(),
{
    if models.len() == 0 {
        assert(models =~= Seq::<ModelView>::empty());
    } else {
        let before = models.drop_last();
        let model = models.last();
        law_sorted_by_name(before);
        let sorted = by_name(before);
        lemma_place_for(sorted, model);
        let at = place_for(sorted, model);
        lemma_placed(sorted, model, at);
        let all = sorted.insert(at, model);
        vstd::seq_lib::to_multiset_insert(sorted, at, model);
        vstd::seq_lib::to_multiset_build(before, model);
        assert(before.push(model) == models);
        assert forall|i: int, j: int| 0 <= i < j < all.len() implies name_le(
            #[trigger] all[i].name,
            #[trigger] all[j].name,
        ) by {
            let key = vstd::utf8::encode_utf8(model.name);
            if j < at {
                assert(all[i] == sorted[i] && all[j] == sorted[j]);
            } else if j == at {
                assert(all[i] == sorted[i]);
            } else if i == at {
                // the model sorts before the one it was put in front of, and so
                // before all behind that one
                let next = vstd::utf8::encode_utf8(sorted[at].name);
                let far = vstd::utf8::encode_utf8(sorted[j - 1].name);
                assert(all[j] == sorted[j - 1]);
                lemma_lex_total(next, key);
                if j - 1 > at {
                    assert(name_le(sorted[at].name, sorted[j - 1].name));
                    lemma_lex_transitive(key, next, far);
                }
            } else if i < at {
                assert(all[i] == sorted[i] && all[j] == sorted[j - 1]);
            } else {
                assert(all[i] == sorted[i - 1] && all[j] == sorted[j - 1]);
            }
        }
    }
}

} // verus!
