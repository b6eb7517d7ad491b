//! Korean→English translation of GRF internal paths, segment by segment.
use vstd::prelude::*;
use vstd::hash_map::StringHashMap;
use vstd::string::StringExecFns;
use crate::keyset::{insert_all, insert_sorted, insert_unique, sort_dedup, strictly_sorted};
use crate::text::{
    all_ascii, ascii_only, chars_of, join, join_chars, last_index_of, rfind_char, split_chars,
    split_on, string_from_chars, string_views, views,
};

verus! {

/// The contents of `translations.toml`: the hand-curated dictionary under `[known]`.
pub struct TranslationsFile {
    pub known: StringHashMap<String>,
}

/// The English for `key`: the hand-curated dictionary first, then the rAthena lookup.
pub open spec fn lookup_spec(
    known: Map<Seq<char>, String>,
    rathena: Map<Seq<char>, String>,
    key: Seq<char>,
) -> Option<Seq<char>> {
    if known.contains_key(key) {
        Some(known[key]@)
    } else if rathena.contains_key(key) {
        Some(rathena[key]@)
    } else {
        None
    }
}

/// A token that is neither ASCII nor in either dictionary: kept as it is and logged.
pub open spec fn token_missed(
    known: Map<Seq<char>, String>,
    rathena: Map<Seq<char>, String>,
    t: Seq<char>,
) -> bool {
    !ascii_only(t) && lookup_spec(known, rathena, t) is None
}

/// One `_`-separated token translated: ASCII kept, else looked up, else kept.
pub open spec fn token_spec(
    known: Map<Seq<char>, String>,
    rathena: Map<Seq<char>, String>,
    t: Seq<char>,
) -> Seq<char> {
    if ascii_only(t) {
        t
    } else {
        match lookup_spec(known, rathena, t) {
            Some(e) => e,
            None => t,
        }
    }
}

/// A name cut before its last `.`: the base and the extension (with its dot),
/// or the whole name and an empty extension when it holds no dot.
pub open spec fn split_ext_spec(name: Seq<char>) -> (Seq<char>, Seq<char>) {
    match last_index_of(name, '.') {
        Some(i) => (name.take(i), name.skip(i)),
        None => (name, Seq::empty()),
    }
}

/// Whether a segment goes through the token-by-token fallback.
pub open spec fn uses_tokens(
    known: Map<Seq<char>, String>,
    rathena: Map<Seq<char>, String>,
    seg: Seq<char>,
) -> bool {
    let (base, ext) = split_ext_spec(seg);
    &&& !ascii_only(seg)
    &&& lookup_spec(known, rathena, seg) is None
    &&& !(ext.len() > 0 && lookup_spec(known, rathena, base) is Some)
}

/// The tokens of the segment's base, split on `_`.
pub open spec fn seg_tokens(seg: Seq<char>) -> Seq<Seq<char>> {
    split_on(split_ext_spec(seg).0, '_')
}

/// One path segment translated.
pub open spec fn segment_spec(
    known: Map<Seq<char>, String>,
    rathena: Map<Seq<char>, String>,
    seg: Seq<char>,
) -> Seq<char> {
    let (base, ext) = split_ext_spec(seg);
    if ascii_only(seg) {
        seg
    } else if lookup_spec(known, rathena, seg) is Some {
        lookup_spec(known, rathena, seg)->0
    } else if ext.len() > 0 && lookup_spec(known, rathena, base) is Some {
        lookup_spec(known, rathena, base)->0 + ext
    } else {
        join(seg_tokens(seg).map_values(|t: Seq<char>| token_spec(known, rathena, t)), '_') + ext
    }
}

/// The tokens of `ts` that miss, in order.
pub open spec fn missed_in(
    known: Map<Seq<char>, String>,
    rathena: Map<Seq<char>, String>,
    ts: Seq<Seq<char>>,
) -> Seq<Seq<char>>
    decreases ts.len(),
{
    if ts.len() == 0 {
        Seq::empty()
    } else if token_missed(known, rathena, ts.last()) {
        missed_in(known, rathena, ts.drop_last()).push(ts.last())
    } else {
        missed_in(known, rathena, ts.drop_last())
    }
}

/// The tokens of one segment that miss, in order.
pub open spec fn segment_misses(
    known: Map<Seq<char>, String>,
    rathena: Map<Seq<char>, String>,
    seg: Seq<char>,
) -> Seq<Seq<char>> {
    if uses_tokens(known, rathena, seg) {
        missed_in(known, rathena, seg_tokens(seg))
    } else {
        Seq::empty()
    }
}

/// The missed tokens of a sequence of segments, in order.
pub open spec fn segments_misses(
    known: Map<Seq<char>, String>,
    rathena: Map<Seq<char>, String>,
    segs: Seq<Seq<char>>,
) -> Seq<Seq<char>>
    decreases segs.len(),
{
    if segs.len() == 0 {
        Seq::empty()
    } else {
        segments_misses(known, rathena, segs.drop_last()) + segment_misses(
            known,
            rathena,
            segs.last(),
        )
    }
}

/// A GRF internal path (backslash-separated) translated into a path with forward slashes.
pub open spec fn path_spec(
    known: Map<Seq<char>, String>,
    rathena: Map<Seq<char>, String>,
    path: Seq<char>,
) -> Seq<char> {
    join(split_on(path, '\\').map_values(|s: Seq<char>| segment_spec(known, rathena, s)), '/')
}

/// The missed tokens of a whole path, in order.
pub open spec fn path_misses(
    known: Map<Seq<char>, String>,
    rathena: Map<Seq<char>, String>,
    path: Seq<char>,
) -> Seq<Seq<char>> {
    segments_misses(known, rathena, split_on(path, '\\'))
}

/// Translates GRF paths and records the Korean tokens that it could not translate.
pub struct Translator {
    known: StringHashMap<String>,
    /// rAthena-derived lookup: Korean resource name → AegisName (lowercase).
    rathena: StringHashMap<String>,
    misses: Vec<Vec<char>>,
}

impl Translator {
    /// The hand-curated dictionary.
    pub closed spec fn known_map(&self) -> Map<Seq<char>, String> {
        self.known@
    }

    /// The rAthena-derived dictionary.
    pub closed spec fn rathena_map(&self) -> Map<Seq<char>, String> {
        self.rathena@
    }

    /// The untranslated tokens so far, in increasing order.
    pub closed spec fn miss_list(&self) -> Seq<Seq<char>> {
        views(self.misses@)
    }

    /// The miss list is sorted and free of duplicates.
    #[verifier::type_invariant]
    spec fn misses_sorted(&self) -> bool {
        strictly_sorted(views(self.misses@))
    }

    pub fn new(known: StringHashMap<String>, rathena: StringHashMap<String>) -> (t: Self)
        ensures
            strictly_sorted(t.miss_list()),
            t.known_map() == known@,
            t.rathena_map() == rathena@,
            t.miss_list() == Seq::<Seq<char>>::empty(),
    {
        let t = Translator { known, rathena, misses: Vec::new() };
        assert(t.miss_list() =~= Seq::<Seq<char>>::empty());
        t
    }

    /// Looks `key` up in the hand-curated dictionary, then in the rAthena one.
    fn lookup(&self, key: &[char]) -> (r: Option<Vec<char>>)
        ensures
            r matches Some(v) ==> lookup_spec(self.known_map(), self.rathena_map(), key@)
                == Some(v@),
            r is None ==> lookup_spec(self.known_map(), self.rathena_map(), key@) is None,
    {
        let k = string_from_chars(key);
        match self.known.get(k.as_str()) {
            Some(e) => Some(chars_of(e.as_str())),
            None => match self.rathena.get(k.as_str()) {
                Some(e) => Some(chars_of(e.as_str())),
                None => None,
            },
        }
    }

    /// Records an untranslated token.
    fn record_miss(&mut self, token: Vec<char>)
        ensures
            final(self).miss_list() == insert_sorted(old(self).miss_list(), token@),
            final(self).known_map() == old(self).known_map(),
            final(self).rathena_map() == old(self).rathena_map(),
    {
        proof {
            use_type_invariant(&*self);
        }
        let mut list: Vec<Vec<char>> = Vec::new();
        std::mem::swap(&mut list, &mut self.misses);
        insert_unique(&mut list, token);
        self.misses = list;
    }
}

} // verus!

verus! {

/// Cuts a name before its last `.`: `("novice_남", ".spr")`.
pub fn split_ext(name: &[char]) -> (r: (Vec<char>, Vec<char>))
    ensures
        (r.0@, r.1@) == split_ext_spec(name@),
{
    match rfind_char(name, '.') {
        Some(dot) => {
            proof {
                crate::text::lemma_last_index_of(name@, '.');
            }
            let base = crate::text::copy_range(name, 0, dot);
            let ext = crate::text::copy_range(name, dot, name.len());
            assert(base@ =~= name@.take(dot as int));
            assert(ext@ =~= name@.skip(dot as int));
            (base, ext)
        },
        None => {
            let whole = crate::text::copy_range(name, 0, name.len());
            assert(whole@ =~= name@);
            (whole, Vec::new())
        },
    }
}

impl Translator {
    /// Translates one path segment (a directory name or a file name).
    ///
    /// 1. Pure ASCII is kept as it is.
    /// 2. The whole segment found in a dictionary gives its English.
    /// 3. The segment without its extension found in a dictionary gives its English,
    ///    followed by the extension.
    /// 4. Otherwise each `_`-separated token is kept (ASCII), translated (found),
    ///    or kept and logged as a miss.
    fn translate_segment(&mut self, seg: &[char]) -> (r: Vec<char>)
        ensures
            r@ == segment_spec(old(self).known_map(), old(self).rathena_map(), seg@),
            final(self).miss_list() == insert_all(
                old(self).miss_list(),
                segment_misses(old(self).known_map(), old(self).rathena_map(), seg@),
            ),
            final(self).known_map() == old(self).known_map(),
            final(self).rathena_map() == old(self).rathena_map(),
    {
        let ghost known = self.known_map();
        let ghost rathena = self.rathena_map();
        let ghost start = self.miss_list();
        if all_ascii(seg) {
            return crate::text::copy_range(seg, 0, seg.len());
        }
        if let Some(english) = self.lookup(seg) {
            return english;
        }
        let (base, ext) = split_ext(seg);
        if ext.len() > 0 {
            if let Some(english) = self.lookup(&base) {
                let mut r = english;
                crate::text::append_chars(&mut r, &ext);
                return r;
            }
        }
        let tokens = split_chars(&base, '_');
        let ghost ts = views(tokens@);
        let mut outs: Vec<Vec<char>> = Vec::new();
        for i in 0..tokens.len()
            invariant
                ts == views(tokens@),
                ts == seg_tokens(seg@),
                self.known_map() == known,
                self.rathena_map() == rathena,
                views(outs@) == ts.take(i as int).map_values(
                    |t: Seq<char>| token_spec(known, rathena, t),
                ),
                self.miss_list() == insert_all(start, missed_in(known, rathena, ts.take(i as int))),
        {
            let token = &tokens[i];
            assert(ts[i as int] == token@);
            assert(ts.take(i + 1).drop_last() =~= ts.take(i as int));
            assert(ts.take(i + 1).last() == token@);
            assert(ts.take(i + 1).map_values(|t: Seq<char>| token_spec(known, rathena, t))
                =~= ts.take(i as int).map_values(|t: Seq<char>| token_spec(known, rathena, t)).push(
                token_spec(known, rathena, token@),
            ));
            let ghost prev_outs = views(outs@);
            let ghost m_prev = missed_in(known, rathena, ts.take(i as int));
            if all_ascii(token) {
                let piece = crate::text::copy_range(token, 0, token.len());
                assert(piece@ =~= token@);
                outs.push(piece);
                assert(missed_in(known, rathena, ts.take(i + 1)) == m_prev);
            } else {
                match self.lookup(token) {
                    Some(english) => {
                        outs.push(english);
                        assert(missed_in(known, rathena, ts.take(i + 1)) == m_prev);
                    },
                    None => {
                        proof {
                            crate::keyset::lemma_insert_all_push(start, m_prev, token@);
                        }
                        let missed = crate::text::copy_range(token, 0, token.len());
                        assert(missed@ =~= token@);
                        self.record_miss(missed);
                        let piece = crate::text::copy_range(token, 0, token.len());
                        assert(piece@ =~= token@);
                        outs.push(piece);
                        assert(missed_in(known, rathena, ts.take(i + 1)) == m_prev.push(token@));
                    },
                }
            }
            assert(views(outs@) =~= prev_outs.push(token_spec(known, rathena, token@)));
        }
        assert(ts.take(tokens.len() as int) =~= ts);
        let mut r = join_chars(&outs, '_');
        crate::text::append_chars(&mut r, &ext);
        r
    }

    /// Translates a full GRF internal path (backslash-separated) into a path with
    /// forward slashes, segment by segment, and logs the tokens it could not translate.
    pub fn translate_path(&mut self, grf_path: &str) -> (r: String)
        ensures
            strictly_sorted(final(self).miss_list()),
            r@ == path_spec(old(self).known_map(), old(self).rathena_map(), grf_path@),
            final(self).miss_list() == insert_all(
                old(self).miss_list(),
                path_misses(old(self).known_map(), old(self).rathena_map(), grf_path@),
            ),
            final(self).known_map() == old(self).known_map(),
            final(self).rathena_map() == old(self).rathena_map(),
    {
        let ghost known = self.known_map();
        let ghost rathena = self.rathena_map();
        let ghost start = self.miss_list();
        let cs = chars_of(grf_path);
        let segs = split_chars(&cs, '\\');
        let ghost ss = views(segs@);
        let mut outs: Vec<Vec<char>> = Vec::new();
        for i in 0..segs.len()
            invariant
                ss == views(segs@),
                ss == split_on(grf_path@, '\\'),
                self.known_map() == known,
                self.rathena_map() == rathena,
                views(outs@) == ss.take(i as int).map_values(
                    |s: Seq<char>| segment_spec(known, rathena, s),
                ),
                self.miss_list() == insert_all(
                    start,
                    segments_misses(known, rathena, ss.take(i as int)),
                ),
        {
            let seg = &segs[i];
            assert(ss[i as int] == seg@);
            assert(ss.take(i + 1).drop_last() =~= ss.take(i as int));
            assert(ss.take(i + 1).last() == seg@);
            assert(ss.take(i + 1).map_values(|s: Seq<char>| segment_spec(known, rathena, s))
                =~= ss.take(i as int).map_values(|s: Seq<char>| segment_spec(known, rathena, s)).push(
                segment_spec(known, rathena, seg@),
            ));
            let ghost prev_outs = views(outs@);
            proof {
                crate::keyset::lemma_insert_all_concat(
                    start,
                    segments_misses(known, rathena, ss.take(i as int)),
                    segment_misses(known, rathena, seg@),
                );
            }
            let out = self.translate_segment(seg);
            outs.push(out);
            assert(views(outs@) =~= prev_outs.push(segment_spec(known, rathena, seg@)));
        }
        assert(ss.take(segs.len() as int) =~= ss);
        let joined = join_chars(&outs, '/');
        proof {
            use_type_invariant(&*self);
        }
        string_from_chars(&joined)
    }

    /// Every Korean token that could not be translated, each once, in increasing order.
    pub fn misses(&self) -> (r: Vec<String>)
        ensures
            r@.map_values(|s: String| s@) == self.miss_list(),
            strictly_sorted(self.miss_list()),
    {
        proof {
            use_type_invariant(self);
        }
        let mut r: Vec<String> = Vec::new();
        for i in 0..self.misses.len()
            invariant
                r@.map_values(|s: String| s@) == self.miss_list().take(i as int),
        {
            let ghost prev = r@.map_values(|s: String| s@);
            let item = string_from_chars(&self.misses[i]);
            assert(item@ == self.miss_list()[i as int]);
            r.push(item);
            assert(r@.map_values(|s: String| s@) =~= prev.push(item@));
            assert(self.miss_list().take(i + 1) =~= self.miss_list().take(i as int).push(item@));
        }
        assert(self.miss_list().take(self.misses.len() as int) =~= self.miss_list());
        r
    }
}

} // verus!

verus! {

/// One character escaped for a TOML basic string: `\` and `"` get a backslash.
pub open spec fn escape_char(c: char) -> Seq<char> {
    if c == '\\' {
        seq!['\\', '\\']
    } else if c == '"' {
        seq!['\\', '"']
    } else {
        seq![c]
    }
}

/// Every character of `s` escaped for a TOML basic string.
pub open spec fn escape_spec(s: Seq<char>) -> Seq<char>
    decreases s.len(),
{
    if s.len() == 0 {
        Seq::empty()
    } else {
        escape_spec(s.drop_last()) + escape_char(s.last())
    }
}

/// `s` as a quoted TOML key.
pub open spec fn toml_key_spec(s: Seq<char>) -> Seq<char> {
    seq!['"'] + escape_spec(s) + seq!['"']
}

/// Quotes a key for TOML, as characters.
fn quote_key(s: &[char]) -> (r: Vec<char>)
    ensures
        r@ == toml_key_spec(s@),
{
    let mut r: Vec<char> = Vec::new();
    r.push('"');
    for i in 0..s.len()
        invariant
            r@ == seq!['"'] + escape_spec(s@.take(i as int)),
    {
        let c = s[i];
        assert(s@.take(i + 1).drop_last() =~= s@.take(i as int));
        if c == '\\' {
            r.push('\\');
            r.push('\\');
        } else if c == '"' {
            r.push('\\');
            r.push('"');
        } else {
            r.push(c);
        }
        assert(r@ =~= seq!['"'] + escape_spec(s@.take(i + 1)));
    }
    assert(s@.take(s.len() as int) =~= s@);
    r.push('"');
    r
}

/// Produces a TOML-safe key string. Bare keys allow only ASCII letters, digits, `-`
/// and `_`, and a Korean key always needs quotes, so every key is quoted: `"`, the key
/// with each `\` and `"` escaped by a backslash, `"`.
pub fn toml_key(s: &str) -> (r: String)
    ensures
        r@ == toml_key_spec(s@),
{
    let cs = chars_of(s);
    let q = quote_key(&cs);
    string_from_chars(&q)
}

/// The first lines of the miss log.
pub open spec fn miss_log_header() -> Seq<char> {
    "# Translation misses — fill in the English values and move entries to translations.toml\n[known]\n"@
}

/// One entry of the miss log: the quoted key with an empty value.
pub open spec fn miss_line(k: Seq<char>) -> Seq<char> {
    toml_key_spec(k) + seq![' ', '=', ' ', '"', '"', '\n']
}

/// The entries of the miss log for `ks`, in order.
pub open spec fn miss_lines(ks: Seq<Seq<char>>) -> Seq<char>
    decreases ks.len(),
{
    if ks.len() == 0 {
        Seq::empty()
    } else {
        miss_lines(ks.drop_last()) + miss_line(ks.last())
    }
}

/// The miss log for the sorted keys `ks`: empty when there is none.
pub open spec fn miss_log_spec(ks: Seq<Seq<char>>) -> Seq<char> {
    if ks.len() == 0 {
        Seq::empty()
    } else {
        miss_log_header() + miss_lines(ks)
    }
}

/// Serializes the misses to a TOML snippet that the user can fill in and merge into
/// `translations.toml`: a header and one `"key" = ""` line per distinct miss, in
/// increasing order. No misses give the empty string.
pub fn format_miss_log(misses: &[String]) -> (r: String)
    ensures
        r@ == miss_log_spec(sort_dedup(string_views(misses@))),
{
    let ghost ms = string_views(misses@);
    let mut keys: Vec<Vec<char>> = Vec::new();
    for i in 0..misses.len()
        invariant
            ms == string_views(misses@),
            views(keys@) == insert_all(Seq::empty(), ms.take(i as int)),
            strictly_sorted(views(keys@)),
    {
        let k = chars_of(misses[i].as_str());
        assert(ms.take(i + 1).drop_last() =~= ms.take(i as int));
        assert(ms[i as int] == k@);
        insert_unique(&mut keys, k);
    }
    assert(ms.take(misses.len() as int) =~= ms);
    if keys.len() == 0 {
        return String::new();
    }
    let mut out: Vec<char> = Vec::new();
    for i in 0..keys.len()
        invariant
            out@ == miss_lines(views(keys@).take(i as int)),
    {
        let line = quote_key(&keys[i]);
        crate::text::append_chars(&mut out, &line);
        crate::text::append_chars(&mut out, &[' ', '=', ' ', '"', '"', '\n']);
        assert(views(keys@).take(i + 1).drop_last() =~= views(keys@).take(i as int));
        assert(views(keys@)[i as int] == keys@[i as int]@);
        assert(out@ =~= miss_lines(views(keys@).take(i + 1)));
    }
    assert(views(keys@).take(keys.len() as int) =~= views(keys@));
    let mut log = String::from_str(
        "# Translation misses — fill in the English values and move entries to translations.toml\n[known]\n",
    );
    for i in 0..out.len()
        invariant
            log@ == miss_log_header() + out@.take(i as int),
    {
        crate::text::string_push(&mut log, out[i]);
        assert(out@.take(i + 1) =~= out@.take(i as int).push(out@[i as int]));
    }
    assert(out@.take(out.len() as int) =~= out@);
    log
}

} // verus!

verus! {

// ---------------------------------------------------------------------------
// Laws
// ---------------------------------------------------------------------------

/// A path that is pure ASCII is translated to itself with every `\` turned into `/`,
/// and logs no miss.
pub proof fn law_ascii_path_unchanged(
    known: Map<Seq<char>, String>,
    rathena: Map<Seq<char>, String>,
    path: Seq<char>,
)
    requires
        ascii_only(path),
    ensures
        path_spec(known, rathena, path) == crate::text::replace_char(path, '\\', '/'),
        path_misses(known, rathena, path) == Seq::<Seq<char>>::empty(),
{
    let segs = split_on(path, '\\');
    crate::text::lemma_split_ascii(path, '\\');
    assert(segs.map_values(|s: Seq<char>| segment_spec(known, rathena, s)) =~= segs);
    crate::text::lemma_join_split(path, '\\', '/');
    lemma_no_misses_ascii(known, rathena, segs);
}

proof fn lemma_no_misses_ascii(
    known: Map<Seq<char>, String>,
    rathena: Map<Seq<char>, String>,
    segs: Seq<Seq<char>>,
)
    requires
        forall|i: int| 0 <= i < segs.len() ==> ascii_only(#[trigger] segs[i]),
    ensures
        segments_misses(known, rathena, segs) == Seq::<Seq<char>>::empty(),
    decreases segs.len(),
{
    if segs.len() > 0 {
        assert(ascii_only(segs[segs.len() - 1]));
        lemma_no_misses_ascii(known, rathena, segs.drop_last());
        assert(segments_misses(known, rathena, segs) =~= Seq::<Seq<char>>::empty());
    }
}

/// The hand-curated dictionary takes priority over the rAthena lookup, which is used
/// only for keys that the dictionary lacks.
pub proof fn law_known_first(
    known: Map<Seq<char>, String>,
    rathena: Map<Seq<char>, String>,
    key: Seq<char>,
)
    ensures
        known.contains_key(key) ==> lookup_spec(known, rathena, key) == Some(known[key]@),
        !known.contains_key(key) && rathena.contains_key(key) ==> lookup_spec(known, rathena, key)
            == Some(rathena[key]@),
        !known.contains_key(key) && !rathena.contains_key(key) ==> lookup_spec(known, rathena, key)
            is None,
{
}

/// The shape of every logged token: not ASCII, free of `_` and `\\`, and a key of
/// neither dictionary.
pub open spec fn logged_token(
    known: Map<Seq<char>, String>,
    rathena: Map<Seq<char>, String>,
    t: Seq<char>,
) -> bool {
    &&& !ascii_only(t)
    &&& !t.contains('_')
    &&& !t.contains('\\')
    &&& !known.contains_key(t)
    &&& !rathena.contains_key(t)
}

proof fn lemma_missed_in(
    known: Map<Seq<char>, String>,
    rathena: Map<Seq<char>, String>,
    ts: Seq<Seq<char>>,
)
    ensures
        forall|i: int|
            0 <= i < missed_in(known, rathena, ts).len() ==> token_missed(
                known,
                rathena,
                #[trigger] missed_in(known, rathena, ts)[i],
            ) && ts.contains(missed_in(known, rathena, ts)[i]),
    decreases ts.len(),
{
    if ts.len() > 0 {
        lemma_missed_in(known, rathena, ts.drop_last());
        let prev = missed_in(known, rathena, ts.drop_last());
        assert forall|i: int| 0 <= i < prev.len() implies ts.contains(#[trigger] prev[i]) by {
            let k = choose|k: int| 0 <= k < ts.drop_last().len() && ts.drop_last()[k] == prev[i];
            assert(ts[k] == prev[i]);
        }
        if token_missed(known, rathena, ts.last()) {
            assert forall|i: int| 0 <= i < prev.push(ts.last()).len() implies token_missed(
                known,
                rathena,
                #[trigger] prev.push(ts.last())[i],
            ) && ts.contains(prev.push(ts.last())[i]) by {
                if i < prev.len() {
                    assert(prev.push(ts.last())[i] == prev[i]);
                } else {
                    assert(ts[ts.len() - 1] == ts.last());
                }
            }
        }
    }
}

proof fn lemma_segment_misses(
    known: Map<Seq<char>, String>,
    rathena: Map<Seq<char>, String>,
    seg: Seq<char>,
)
    requires
        !seg.contains('\\'),
    ensures
        forall|i: int|
            0 <= i < segment_misses(known, rathena, seg).len() ==> logged_token(
                known,
                rathena,
                #[trigger] segment_misses(known, rathena, seg)[i],
            ),
{
    if uses_tokens(known, rathena, seg) {
        let base = split_ext_spec(seg).0;
        crate::text::lemma_last_index_of(seg, '.');
        assert(!base.contains('\\')) by {
            if base.contains('\\') {
                let k = choose|k: int| 0 <= k < base.len() && base[k] == '\\';
                assert(seg[k] == '\\');
            }
        }
        let ts = seg_tokens(seg);
        crate::text::lemma_split_pieces(base, '_', '\\');
        lemma_missed_in(known, rathena, ts);
        let m = missed_in(known, rathena, ts);
        assert forall|i: int| 0 <= i < m.len() implies logged_token(known, rathena, #[trigger] m[i]) by {
            let k = choose|k: int| 0 <= k < ts.len() && ts[k] == m[i];
            assert(!ts[k].contains('_'));
            assert(!ts[k].contains('\\'));
        }
    }
}

proof fn lemma_segments_misses(
    known: Map<Seq<char>, String>,
    rathena: Map<Seq<char>, String>,
    segs: Seq<Seq<char>>,
)
    requires
        forall|i: int| 0 <= i < segs.len() ==> !(#[trigger] segs[i]).contains('\\'),
    ensures
        forall|i: int|
            0 <= i < segments_misses(known, rathena, segs).len() ==> logged_token(
                known,
                rathena,
                #[trigger] segments_misses(known, rathena, segs)[i],
            ),
    decreases segs.len(),
{
    if segs.len() > 0 {
        assert(!segs[segs.len() - 1].contains('\\'));
        lemma_segments_misses(known, rathena, segs.drop_last());
        let seg = segs.last();
        lemma_segment_misses(known, rathena, seg);
        let a = segments_misses(known, rathena, segs.drop_last());
        let b = segment_misses(known, rathena, seg);
        assert forall|i: int| 0 <= i < (a + b).len() implies logged_token(
            known,
            rathena,
            #[trigger] (a + b)[i],
        ) by {
            if i >= a.len() {
                assert((a + b)[i] == b[i - a.len()]);
            } else {
                assert((a + b)[i] == a[i]);
            }
        }
    }
}

/// Every token that a path logs is not ASCII, holds no `_` and no `\\`, and is a key of
/// neither dictionary.
proof fn lemma_path_misses(
    known: Map<Seq<char>, String>,
    rathena: Map<Seq<char>, String>,
    path: Seq<char>,
)
    ensures
        forall|t: Seq<char>|
            #[trigger] path_misses(known, rathena, path).contains(t) ==> logged_token(known, rathena, t),
{
    crate::text::lemma_split_pieces(path, '\\', '\\');
    lemma_segments_misses(known, rathena, split_on(path, '\\'));
    let m = path_misses(known, rathena, path);
    assert forall|t: Seq<char>| #[trigger] m.contains(t) implies logged_token(known, rathena, t) by {
        let k = choose|k: int| 0 <= k < m.len() && m[k] == t;
        assert(logged_token(known, rathena, m[k]));
    }
}

/// Translating a path keeps the miss list sorted and free of duplicates, and adds to
/// it exactly the path's missed tokens; nothing is ever taken out of it. Every logged
/// token is not ASCII, holds no `_` and no `\\`, and is a key of neither dictionary.
pub proof fn law_misses_accumulate(
    known: Map<Seq<char>, String>,
    rathena: Map<Seq<char>, String>,
    before: Seq<Seq<char>>,
    path: Seq<char>,
)
    requires
        strictly_sorted(before),
    ensures
        strictly_sorted(insert_all(before, path_misses(known, rathena, path))),
        insert_all(before, path_misses(known, rathena, path)).to_set() == before.to_set()
            + path_misses(known, rathena, path).to_set(),
        before.to_set().subset_of(insert_all(before, path_misses(known, rathena, path)).to_set()),
        forall|t: Seq<char>|
            #[trigger] path_misses(known, rathena, path).contains(t) ==> logged_token(
                known,
                rathena,
                t,
            ),
{
    crate::keyset::lemma_insert_all(before, path_misses(known, rathena, path));
    lemma_path_misses(known, rathena, path);
}

/// The miss list after `Translator::new` and then `translate_path` on each of `paths`
/// in turn (by the contracts of the two functions).
pub open spec fn misses_after(
    known: Map<Seq<char>, String>,
    rathena: Map<Seq<char>, String>,
    paths: Seq<Seq<char>>,
) -> Seq<Seq<char>>
    decreases paths.len(),
{
    if paths.len() == 0 {
        Seq::empty()
    } else {
        insert_all(misses_after(known, rathena, paths.drop_last()), path_misses(known, rathena, paths.last()))
    }
}

/// The missed tokens of all `paths`, in order.
pub open spec fn all_path_misses(
    known: Map<Seq<char>, String>,
    rathena: Map<Seq<char>, String>,
    paths: Seq<Seq<char>>,
) -> Seq<Seq<char>>
    decreases paths.len(),
{
    if paths.len() == 0 {
        Seq::empty()
    } else {
        all_path_misses(known, rathena, paths.drop_last()) + path_misses(known, rathena, paths.last())
    }
}

/// After a new translator has translated `paths` in turn, its misses are the union of
/// the misses of each path, sorted and each once; each call only adds to them; and
/// every logged token is not ASCII, holds no `_` and no `\\`, and is a key of neither
/// dictionary.
pub proof fn law_misses_sequence(
    known: Map<Seq<char>, String>,
    rathena: Map<Seq<char>, String>,
    paths: Seq<Seq<char>>,
)
    ensures
        misses_after(known, rathena, paths) == sort_dedup(all_path_misses(known, rathena, paths)),
        strictly_sorted(misses_after(known, rathena, paths)),
        forall|t: Seq<char>|
            #[trigger] misses_after(known, rathena, paths).contains(t) <==> exists|i: int|
                0 <= i < paths.len() && #[trigger] path_misses(known, rathena, paths[i]).contains(t),
        paths.len() > 0 ==> misses_after(known, rathena, paths.drop_last()).to_set().subset_of(
            misses_after(known, rathena, paths).to_set(),
        ),
        forall|t: Seq<char>|
            #[trigger] misses_after(known, rathena, paths).contains(t) ==> logged_token(
                known,
                rathena,
                t,
            ),
    decreases paths.len(),
{
    let all = all_path_misses(known, rathena, paths);
    let m = misses_after(known, rathena, paths);
    if paths.len() > 0 {
        let prev_paths = paths.drop_last();
        law_misses_sequence(known, rathena, prev_paths);
        let pm = path_misses(known, rathena, paths.last());
        crate::keyset::lemma_insert_all_concat(
            Seq::empty(),
            all_path_misses(known, rathena, prev_paths),
            pm,
        );
        crate::keyset::lemma_insert_all(misses_after(known, rathena, prev_paths), pm);
        lemma_path_misses(known, rathena, paths.last());
        let prev = misses_after(known, rathena, prev_paths);
        assert forall|t: Seq<char>| #[trigger] m.contains(t) <==> exists|i: int|
            0 <= i < paths.len() && #[trigger] path_misses(known, rathena, paths[i]).contains(t) by {
            assert(m.to_set().contains(t) == m.contains(t));
            assert(prev.to_set().contains(t) == prev.contains(t));
            assert(pm.to_set().contains(t) == pm.contains(t));
            if m.contains(t) {
                if prev.contains(t) {
                    let i = choose|i: int|
                        0 <= i < prev_paths.len() && #[trigger] path_misses(known, rathena, prev_paths[i]).contains(t);
                    assert(paths[i] == prev_paths[i]);
                } else {
                    assert(paths[paths.len() - 1] == paths.last());
                }
            }
            if exists|i: int| 0 <= i < paths.len() && #[trigger] path_misses(known, rathena, paths[i]).contains(t) {
                let i = choose|i: int| 0 <= i < paths.len() && #[trigger] path_misses(known, rathena, paths[i]).contains(t);
                if i < prev_paths.len() {
                    assert(prev_paths[i] == paths[i]);
                    assert(prev.contains(t));
                } else {
                    assert(pm.contains(t));
                }
            }
        }
        assert forall|t: Seq<char>| #[trigger] m.contains(t) implies logged_token(known, rathena, t) by {
            assert(m.to_set().contains(t));
            if prev.contains(t) {
            } else {
                assert(pm.to_set().contains(t));
            }
        }
    } else {
        crate::keyset::lemma_insert_all(Seq::empty(), Seq::empty());
    }
}

/// A name is its base followed by its extension; the extension is empty or starts
/// with the name's last `.`, and holds no other `.`.
pub proof fn law_split_ext(name: Seq<char>)
    ensures
        split_ext_spec(name).0 + split_ext_spec(name).1 == name,
        split_ext_spec(name).1.len() == 0 || split_ext_spec(name).1[0] == '.',
        forall|k: int|
            1 <= k < split_ext_spec(name).1.len() ==> #[trigger] split_ext_spec(name).1[k] != '.',
        split_ext_spec(name).1.len() == 0 ==> forall|k: int|
            0 <= k < name.len() ==> #[trigger] name[k] != '.',
{
    crate::text::lemma_last_index_of(name, '.');
    let (base, ext) = split_ext_spec(name);
    assert(base + ext =~= name);
    if let Some(i) = last_index_of(name, '.') {
        assert forall|k: int| 1 <= k < ext.len() implies #[trigger] ext[k] != '.' by {
            assert(ext[k] == name[i + k]);
        }
    }
}

/// Reading a TOML basic string body: `\\` gives `\`, `\"` gives `"`.
pub open spec fn unescape_spec(s: Seq<char>) -> Seq<char>
    decreases s.len(),
{
    if s.len() >= 2 && s[0] == '\\' && (s[1] == '\\' || s[1] == '"') {
        seq![s[1]] + unescape_spec(s.skip(2))
    } else if s.len() >= 1 {
        seq![s[0]] + unescape_spec(s.drop_first())
    } else {
        Seq::empty()
    }
}

/// A control character that a TOML basic string must escape: U+0000 to U+0008,
/// U+000A to U+001F, and U+007F (tab may stand as it is).
pub open spec fn toml_control(c: char) -> bool {
    (c <= '\u{1f}' && c != '\t') || c == '\u{7f}'
}

/// A valid body of a TOML basic string that uses only the escapes `\\` and `\"`:
/// every `\` starts one of them, and no `"` or control character stands bare.
pub open spec fn toml_basic_body(s: Seq<char>) -> bool
    decreases s.len(),
{
    if s.len() == 0 {
        true
    } else if s[0] == '\\' {
        s.len() >= 2 && (s[1] == '\\' || s[1] == '"') && toml_basic_body(s.skip(2))
    } else {
        s[0] != '"' && !toml_control(s[0]) && toml_basic_body(s.drop_first())
    }
}

/// The escaping read from the front: the first character's escape, then the rest.
proof fn lemma_escape_front(s: Seq<char>)
    requires
        s.len() >= 1,
    ensures
        escape_spec(s) == escape_char(s[0]) + escape_spec(s.drop_first()),
    decreases s.len(),
{
    if s.len() == 1 {
        assert(s.drop_last() =~= Seq::<char>::empty());
        assert(s.drop_first() =~= Seq::<char>::empty());
        assert(escape_spec(s) =~= escape_char(s[0]));
    } else {
        lemma_escape_front(s.drop_last());
        assert(s.drop_last().drop_first() =~= s.drop_first().drop_last());
        assert(s.drop_first().last() == s.last());
        assert(escape_spec(s) =~= escape_char(s[0]) + escape_spec(s.drop_first()));
    }
}

/// A quoted key reads back as the key: it is `"`, the escaped key, `"`; unescaping the
/// body gives the key again; and when the key holds no control character the body is a
/// valid TOML basic-string body.
pub proof fn law_toml_key_roundtrip(s: Seq<char>)
    ensures
        toml_key_spec(s) == seq!['"'] + escape_spec(s) + seq!['"'],
        toml_key_spec(s).len() >= 2,
        toml_key_spec(s)[0] == '"',
        toml_key_spec(s).last() == '"',
        unescape_spec(escape_spec(s)) == s,
        (forall|k: int| 0 <= k < s.len() ==> !toml_control(#[trigger] s[k])) ==> toml_basic_body(
            escape_spec(s),
        ),
    decreases s.len(),
{
    if s.len() == 0 {
        assert(unescape_spec(escape_spec(s)) =~= s);
    } else {
        lemma_escape_front(s);
        law_toml_key_roundtrip(s.drop_first());
        let e = escape_spec(s);
        let r = escape_spec(s.drop_first());
        if s[0] == '\\' || s[0] == '"' {
            assert(e.skip(2) =~= r);
            assert(e[0] == '\\');
        } else {
            assert(e.drop_first() =~= r);
        }
        assert(seq![s[0]] + s.drop_first() =~= s);
        if forall|k: int| 0 <= k < s.len() ==> !toml_control(#[trigger] s[k]) {
            assert(forall|k: int|
                0 <= k < s.drop_first().len() ==> !toml_control(#[trigger] s.drop_first()[k])) by {
                assert forall|k: int| 0 <= k < s.drop_first().len() implies !toml_control(
                    #[trigger] s.drop_first()[k],
                ) by {
                    assert(s.drop_first()[k] == s[k + 1]);
                }
            }
            assert(!toml_control(s[0]));
        }
    }
}

/// A list that is already sorted and free of duplicates is its own sorted set, so the
/// miss log of `Translator::misses` lists the misses in that order.
pub proof fn law_sort_dedup_sorted(s: Seq<Seq<char>>)
    requires
        strictly_sorted(s),
    ensures
        sort_dedup(s) == s,
{
    crate::keyset::lemma_sort_dedup_sorted(s);
}

} // verus!

verus! {

/// The dictionary that `pairs` give; a later pair replaces an earlier one with the same key.
pub open spec fn pairs_map(pairs: Seq<(String, String)>) -> Map<Seq<char>, String>
    decreases pairs.len(),
{
    if pairs.len() == 0 {
        Map::empty()
    } else {
        pairs_map(pairs.drop_last()).insert(pairs.last().0@, pairs.last().1)
    }
}

/// Builds a dictionary (Korean → English) from key/value pairs.
pub fn dictionary(pairs: &Vec<(String, String)>) -> (m: StringHashMap<String>)
    ensures
        m@ == pairs_map(pairs@),
{
    let mut m: StringHashMap<String> = StringHashMap::new();
    for i in 0..pairs.len()
        invariant
            m@ == pairs_map(pairs@.take(i as int)),
    {
        let k = pairs[i].0.clone();
        let v = pairs[i].1.clone();
        assert(pairs@.take(i + 1).drop_last() =~= pairs@.take(i as int));
        m.insert(k, v);
    }
    assert(pairs@.take(pairs.len() as int) =~= pairs@);
    m
}

} // verus!

verus! {

proof fn lemma_split_ext_of(base: Seq<char>, ext: Seq<char>)
    requires
        !base.contains('.'),
        ext.len() == 0 || (ext[0] == '.' && forall|k: int| 1 <= k < ext.len() ==> ext[k] != '.'),
    ensures
        split_ext_spec(base + ext) == (base, ext),
{
    let s = base + ext;
    crate::text::lemma_last_index_of(s, '.');
    if ext.len() == 0 {
        assert(s =~= base);
        if let Some(i) = last_index_of(s, '.') {
            assert(base[i] == '.');
        }
    } else {
        assert(s[base.len() as int] == '.');
        match last_index_of(s, '.') {
            Some(i) => {
                if i < base.len() {
                    assert(base[i] == '.');
                } else if i > base.len() {
                    assert(s[i] == ext[i - base.len()]);
                }
                assert(s.take(i) =~= base);
                assert(s.skip(i) =~= ext);
            },
            None => {},
        }
    }
}

/// The token fallback. Take a segment made of the tokens `ts` joined by `_`, followed
/// by an extension (empty, or a `.` and no other `.`), where neither the whole segment
/// nor (when there is an extension) its base is a key of either dictionary. Then each
/// non-ASCII token that the hand-curated dictionary has becomes its English, whatever
/// rAthena holds; one that only rAthena has becomes rAthena's value; any other token is
/// kept; the tokens are joined by `_` again and the extension is put back. The tokens
/// logged are exactly the non-ASCII tokens that neither dictionary has.
pub proof fn law_token_fallback(
    known: Map<Seq<char>, String>,
    rathena: Map<Seq<char>, String>,
    ts: Seq<Seq<char>>,
    ext: Seq<char>,
)
    requires
        ts.len() >= 1,
        forall|i: int|
            0 <= i < ts.len() ==> !(#[trigger] ts[i]).contains('_') && !ts[i].contains('.'),
        ext.len() == 0 || (ext[0] == '.' && forall|k: int| 1 <= k < ext.len() ==> ext[k] != '.'),
        !ascii_only(join(ts, '_') + ext),
        !known.contains_key(join(ts, '_') + ext),
        !rathena.contains_key(join(ts, '_') + ext),
        ext.len() == 0 || (!known.contains_key(join(ts, '_')) && !rathena.contains_key(
            join(ts, '_'),
        )),
    ensures
        segment_spec(known, rathena, join(ts, '_') + ext) == join(
            ts.map_values(
                |t: Seq<char>|
                    if ascii_only(t) {
                        t
                    } else if known.contains_key(t) {
                        known[t]@
                    } else if rathena.contains_key(t) {
                        rathena[t]@
                    } else {
                        t
                    },
            ),
            '_',
        ) + ext,
        forall|t: Seq<char>|
            #[trigger] segment_misses(known, rathena, join(ts, '_') + ext).contains(t) <==> (
            ts.contains(t) && !ascii_only(t) && !known.contains_key(t) && !rathena.contains_key(t)),
{
    let base = join(ts, '_');
    let seg = base + ext;
    crate::text::lemma_join_avoids(ts, '_', '.');
    lemma_split_ext_of(base, ext);
    assert forall|i: int| 0 <= i < ts.len() implies !(#[trigger] ts[i]).contains('_') by {}
    crate::text::lemma_split_join(ts, '_');
    assert(seg_tokens(seg) == ts);
    assert(ts.map_values(|t: Seq<char>| token_spec(known, rathena, t)) =~= ts.map_values(
        |t: Seq<char>|
            if ascii_only(t) {
                t
            } else if known.contains_key(t) {
                known[t]@
            } else if rathena.contains_key(t) {
                rathena[t]@
            } else {
                t
            },
    ));
    assert(uses_tokens(known, rathena, seg));
    lemma_missed_in(known, rathena, ts);
    lemma_missed_in_complete(known, rathena, ts);
}

proof fn lemma_missed_in_complete(
    known: Map<Seq<char>, String>,
    rathena: Map<Seq<char>, String>,
    ts: Seq<Seq<char>>,
)
    ensures
        forall|t: Seq<char>|
            ts.contains(t) && token_missed(known, rathena, t) ==> #[trigger] missed_in(
                known,
                rathena,
                ts,
            ).contains(t),
    decreases ts.len(),
{
    if ts.len() > 0 {
        lemma_missed_in_complete(known, rathena, ts.drop_last());
        let prev = missed_in(known, rathena, ts.drop_last());
        assert forall|t: Seq<char>| ts.contains(t) && token_missed(known, rathena, t) implies #[trigger] missed_in(
            known,
            rathena,
            ts,
        ).contains(t) by {
            let k = choose|k: int| 0 <= k < ts.len() && ts[k] == t;
            if k < ts.len() - 1 {
                assert(ts.drop_last()[k] == t);
                assert(ts.drop_last().contains(t));
                assert(prev.contains(t));
                let j = choose|j: int| 0 <= j < prev.len() && prev[j] == t;
                if token_missed(known, rathena, ts.last()) {
                    assert(prev.push(ts.last())[j] == t);
                }
            } else {
                assert(prev.push(ts.last())[prev.len() as int] == t);
            }
        }
    }
}

} // verus!

verus! {

/// The whole-segment and base lookups. An ASCII segment is kept. A non-ASCII segment
/// that the hand-curated dictionary has becomes its English, whatever rAthena holds; one
/// that only rAthena has becomes rAthena's value. Otherwise, when the segment is a base
/// without `.` followed by an extension (a `.` and no other `.`), and a dictionary has
/// the base (the hand-curated one first), it becomes that English followed by the
/// extension. None of these cases logs a miss.
pub proof fn law_segment_lookup(
    known: Map<Seq<char>, String>,
    rathena: Map<Seq<char>, String>,
    base: Seq<char>,
    ext: Seq<char>,
)
    requires
        !base.contains('.'),
        ext.len() == 0 || (ext[0] == '.' && forall|k: int| 1 <= k < ext.len() ==> ext[k] != '.'),
    ensures
        ascii_only(base + ext) ==> segment_spec(known, rathena, base + ext) == base + ext,
        !ascii_only(base + ext) && known.contains_key(base + ext) ==> segment_spec(
            known,
            rathena,
            base + ext,
        ) == known[base + ext]@,
        !ascii_only(base + ext) && !known.contains_key(base + ext) && rathena.contains_key(
            base + ext,
        ) ==> segment_spec(known, rathena, base + ext) == rathena[base + ext]@,
        !ascii_only(base + ext) && !known.contains_key(base + ext) && !rathena.contains_key(
            base + ext,
        ) && ext.len() > 0 && known.contains_key(base) ==> segment_spec(known, rathena, base + ext)
            == known[base]@ + ext,
        !ascii_only(base + ext) && !known.contains_key(base + ext) && !rathena.contains_key(
            base + ext,
        ) && ext.len() > 0 && !known.contains_key(base) && rathena.contains_key(base)
            ==> segment_spec(known, rathena, base + ext) == rathena[base]@ + ext,
        (ascii_only(base + ext) || known.contains_key(base + ext) || rathena.contains_key(base + ext)
            || (ext.len() > 0 && (known.contains_key(base) || rathena.contains_key(base))))
            ==> segment_misses(known, rathena, base + ext) == Seq::<Seq<char>>::empty(),
{
    lemma_split_ext_of(base, ext);
}

} // verus!
