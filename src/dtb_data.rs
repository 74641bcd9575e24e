use vstd::prelude::*;

verus! {

/// Simplified overview of a kernel-flavoured dtb file.
#[derive(Debug)]
pub struct DtbData {
    /// Path of the dtb file, relative to the scanned dtbs folder.
    pub path: String,
    /// The model string of the root node.
    pub model: String,
    /// Components of the root node's compatible property, in order.
    pub compatibles: Vec<String>,
}

/// Why a dtb file could not be summarised.
#[derive(Debug, Clone, Copy, PartialEq, Eq, Structural)]
pub enum DtbError {
    /// The file does not lie under the scanned folder.
    OutsideRoot,
    /// The bytes are not a device tree with a root node.
    Malformed,
    /// The root node declares no compatible string.
    NoCompatible,
}

/// The path of `file` relative to the folder `prefix`, when it lies under it.
pub uninterp spec fn path_below(file: Seq<char>, prefix: Seq<char>) -> Option<Seq<char>>;

/// Whether `data` parses as a flattened device tree that has a root node.
pub uninterp spec fn fdt_root_found(data: Seq<u8>) -> bool;

/// The `model` property of the root node of the device tree `data`.
pub uninterp spec fn fdt_root_model(data: Seq<u8>) -> Seq<char>;

/// The strings of the `compatible` property of the root node of `data`.
pub uninterp spec fn fdt_root_compatibles(data: Seq<u8>) -> Seq<Seq<char>>;

/// The quoted, escaped form in which Rust's `Debug` prints a string.
pub uninterp spec fn debug_quoted(s: Seq<char>) -> Seq<char>;

#[verifier::external_type_specification]
#[verifier::external_body]
pub struct ExFdtError(flat_device_tree::Error);

/// Relies on `std::path::Path::strip_prefix`: the path of `file` below the
/// folder `prefix`, compared component by component.
#[verifier::external_body]
fn strip_path_prefix(file: &str, prefix: &str) -> (r: Option<String>)
    ensures
        r.is_some() <==> path_below(file@, prefix@).is_some(),
        r.is_some() ==> path_below(file@, prefix@) == Some(r.unwrap()@),
{
    match std::path::Path::new(file).strip_prefix(prefix) {
        Ok(rest) => rest.to_str().map(String::from),
        Err(_) => None,
    }
}

/// Relies on `flat_device_tree`: `Fdt::new` and `Fdt::root` to reach the
/// root node, `Root::model` for its model (empty when absent) and
/// `Compatible::all` for its compatible strings.
#[verifier::external_body]
fn fdt_root_summary(data: &[u8]) -> (r: Result<(String, Vec<String>), flat_device_tree::Error>)
    ensures
        r.is_ok() <==> fdt_root_found(data@),
        r.is_ok() ==> r.unwrap().0@ == fdt_root_model(data@),
        r.is_ok() ==> r.unwrap().1@.map_values(|s: String| s@) == fdt_root_compatibles(data@),
{
    let fdt = flat_device_tree::Fdt::new(data)?;
    let root = fdt.root()?;
    let model = root.model().to_string();
    let compatibles = root.compatible().all().map(String::from).collect();
    Ok((model, compatibles))
}

/// Relies on the `Debug` formatting of `str`: quotes and escapes `s`.
#[verifier::external_body]
pub(crate) fn quote(s: &str) -> (r: String)
    ensures
        r@ == debug_quoted(s@),
{
    format!("{:?}", s)
}

/// The strings of `c`, separated by a comma and a space.
pub open spec fn comma_joined(c: Seq<Seq<char>>) -> Seq<char>
    decreases c.len(),
{
    if c.len() == 0 {
        Seq::empty()
    } else if c.len() == 1 {
        c[0]
    } else {
        comma_joined(c.drop_last()) + seq![',', ' '] + c.last()
    }
}

/// The strings of `c`, each quoted, separated by a comma and a space.
pub open spec fn quoted_list(c: Seq<Seq<char>>) -> Seq<char> {
    comma_joined(c.map_values(|x: Seq<char>| debug_quoted(x)))
}

/// Joins `parts` with a comma and a space between neighbours.
pub fn join_quoted(parts: &Vec<String>) -> (r: String)
    ensures
        r@ == comma_joined(parts@.map_values(|s: String| s@)),
{
    let ghost pv = parts@.map_values(|s: String| s@);
    let mut out = String::new();
    let mut i: usize = 0;
    while i < parts.len()
        invariant
            pv == parts@.map_values(|s: String| s@),
            i <= parts@.len(),
            out@ == comma_joined(pv.take(i as int)),
        decreases parts@.len() - i,
    {
        let ghost before = pv.take(i as int);
        if i > 0 {
            out.append(", ");
        }
        out.append(parts[i].as_str());
        proof {
            reveal_strlit(", ");
            let now = pv.take(i + 1);
            assert(now.drop_last() =~= before);
            assert(now.last() == parts@[i as int]@);
        }
        i = i + 1;
    }
    assert(pv.take(i as int) =~= pv);
    out
}

/// Whether `pat` stands in `s` at position `k`.
pub open spec fn occurs_at(s: Seq<char>, pat: Seq<char>, k: int) -> bool {
    0 <= k && k + pat.len() <= s.len() && s.subrange(k, k + pat.len()) == pat
}

/// The extension that node names drop.
pub open spec fn dtb_ext() -> Seq<char> {
    seq!['.', 'd', 't', 'b']
}

/// Whether `k` is the first position of `.dtb` in `s`.
pub open spec fn is_first_ext(s: Seq<char>, k: int) -> bool {
    occurs_at(s, dtb_ext(), k) && forall|j: int| 0 <= j < k ==> !occurs_at(s, dtb_ext(), j)
}

/// `s` with its first slash turned into `@` and every later one into `_`.
pub open spec fn slashes_mapped(s: Seq<char>) -> Seq<char> {
    Seq::new(
        s.len(),
        |i: int|
            if s[i] != '/' {
                s[i]
            } else if (exists|j: int| 0 <= j < i && s[j] == '/') {
                '_'
            } else {
                '@'
            },
    )
}

/// The node name derived from a path: slashes mapped, and the first `.dtb`
/// of the path (if any) removed.
pub open spec fn node_name_of(p: Seq<char>) -> Seq<char> {
    let m = slashes_mapped(p);
    if exists|k: int| occurs_at(p, dtb_ext(), k) {
        let k = choose|k: int| is_first_ext(p, k);
        m.subrange(0, k) + m.subrange(k + 4, m.len() as int)
    } else {
        m
    }
}

impl PartialEq for DtbData {
    /// Records are the same when their paths are.
    fn eq(&self, other: &Self) -> (r: bool) {
        self.path == other.path
    }
}

impl vstd::std_specs::cmp::PartialEqSpecImpl for DtbData {
    open spec fn obeys_eq_spec() -> bool {
        true
    }

    open spec fn eq_spec(&self, other: &DtbData) -> bool {
        self.path@ == other.path@
    }
}

impl DtbData {
    /// The compatible strings, as character sequences.
    pub open spec fn compat_view(&self) -> Seq<Seq<char>> {
        self.compatibles@.map_values(|s: String| s@)
    }

    /// Summarises the dtb file at `file_path`, whose bytes are `data`, with
    /// its path taken relative to the scanned folder `prefix`.
    pub fn new(file_path: &str, prefix: &str, data: &[u8]) -> (r: Result<Self, DtbError>)
        ensures
            path_below(file_path@, prefix@).is_none() <==> r == Err::<Self, DtbError>(
                DtbError::OutsideRoot,
            ),
            path_below(file_path@, prefix@).is_some() && !fdt_root_found(data@) <==> r == Err::<
                Self,
                DtbError,
            >(DtbError::Malformed),
            path_below(file_path@, prefix@).is_some() && fdt_root_found(data@)
                && fdt_root_compatibles(data@).len() == 0 <==> r == Err::<Self, DtbError>(
                DtbError::NoCompatible,
            ),
            r.is_ok() ==> {
                &&& r.unwrap().wf()
                &&& path_below(file_path@, prefix@) == Some(r.unwrap().path@)
                &&& r.unwrap().model@ == fdt_root_model(data@)
                &&& r.unwrap().compat_view() == fdt_root_compatibles(data@)
            },
    {
        let path = match strip_path_prefix(file_path, prefix) {
            Some(p) => p,
            None => return Err(DtbError::OutsideRoot),
        };
        let (model, compatibles) = match fdt_root_summary(data) {
            Ok(summary) => summary,
            Err(_) => return Err(DtbError::Malformed),
        };
        if compatibles.len() == 0 {
            return Err(DtbError::NoCompatible);
        }
        Ok(DtbData { path, model, compatibles })
    }

    /// Returns the primary compatible, first of the compatibles list.
    /// Records that share it are left out of the mapping.
    pub fn compatible(&self) -> (r: &String)
        requires
            self.wf(),
        ensures
            r@ == self.primary(),
    {
        &self.compatibles[0]
    }

    /// Formats the compatibles list as a dts value: quoted strings separated
    /// by a comma and a space.
    pub fn compatibles_source(&self) -> (r: String)
        ensures
            r@ == quoted_list(self.compat_view()),
    {
        let mut quoted: Vec<String> = Vec::new();
        let mut i: usize = 0;
        while i < self.compatibles.len()
            invariant
                i <= self.compatibles@.len(),
                quoted@.len() == i,
                forall|t: int| 0 <= t < i ==> (#[trigger] quoted@[t])@ == debug_quoted(
                    self.compatibles@[t]@,
                ),
            decreases self.compatibles@.len() - i,
        {
            quoted.push(quote(self.compatibles[i].as_str()));
            i = i + 1;
        }
        let r = join_quoted(&quoted);
        assert(quoted@.map_values(|s: String| s@) =~= self.compat_view().map_values(
            |x: Seq<char>| debug_quoted(x),
        ));
        r
    }

    /// A record is usable when it has a primary compatible.
    pub open spec fn wf(&self) -> bool {
        self.compatibles@.len() > 0
    }

    /// The primary compatible, first of the compatible list.
    pub open spec fn primary(&self) -> Seq<char> {
        self.compatibles@[0]@
    }

    /// Produces a node name from the file path.
    ///
    ///  - The first `.dtb` is removed.
    ///  - The first slash is replaced with an `@`.
    ///  - Any further slashes are replaced with `_`.
    ///
    /// The node names should not be relied on: they are opaque identifiers.
    pub fn node_name(&self) -> (r: String)
        ensures
            r@ == node_name_of(self.path@),
    {
        let p = self.path.as_str();
        let n = p.unicode_len();
        let k = first_ext(p);
        let ghost m = slashes_mapped(p@);
        let mut out = String::new();
        let mut seen_slash = false;
        let mut i: usize = 0;
        while i < n
            invariant
                n == p@.len(),
                p@ == self.path@,
                m == slashes_mapped(p@),
                i <= n,
                seen_slash == (exists|j: int| 0 <= j < i && p@[j] == '/'),
                k.is_some() ==> is_first_ext(p@, k.unwrap() as int),
                k.is_none() ==> forall|j: int| !occurs_at(p@, dtb_ext(), j),
                k.is_none() || i <= k.unwrap() ==> out@ == m.subrange(0, i as int),
                k.is_some() && k.unwrap() < i <= k.unwrap() + 4 ==> out@ == m.subrange(
                    0,
                    k.unwrap() as int,
                ),
                k.is_some() && k.unwrap() + 4 < i ==> out@ == m.subrange(0, k.unwrap() as int)
                    + m.subrange(k.unwrap() + 4, i as int),
            decreases n - i,
        {
            let c = p.get_char(i);
            let skip = match k {
                Some(k) => k <= i && i < k + 4,
                None => false,
            };
            let ghost before = out@;
            if !skip {
                if c != '/' {
                    out.append(p.substring_char(i, i + 1));
                } else if seen_slash {
                    out.append("_");
                } else {
                    out.append("@");
                }
                proof {
                    reveal_strlit("_");
                    reveal_strlit("@");
                    assert(out@ == before.push(m[i as int]));
                }
            }
            if c == '/' {
                seen_slash = true;
            }
            i = i + 1;
            proof {
                if k.is_none() || i <= k.unwrap() {
                    assert(out@ =~= m.subrange(0, i as int));
                } else if i <= k.unwrap() + 4 {
                    assert(out@ =~= m.subrange(0, k.unwrap() as int));
                } else {
                    assert(out@ =~= m.subrange(0, k.unwrap() as int) + m.subrange(
                        k.unwrap() + 4,
                        i as int,
                    ));
                }
            }
        }
        proof {
            if let Some(kk) = k {
                let c = choose|c: int| is_first_ext(p@, c);
                assert(is_first_ext(p@, c));
                if c < kk {
                } else if kk < c {
                }
                assert(c == kk);
                assert(out@ =~= m.subrange(0, kk as int) + m.subrange(kk + 4, m.len() as int));
            } else {
                assert(out@ =~= m);
            }
        }
        out
    }
}

/// The first position of `.dtb` in `p`, if there is one.
fn first_ext(p: &str) -> (r: Option<usize>)
    ensures
        r.is_some() ==> is_first_ext(p@, r.unwrap() as int),
        r.is_none() ==> forall|j: int| !occurs_at(p@, dtb_ext(), j),
{
    let n = p.unicode_len();
    if n < 4 {
        return None;
    }
    let mut j: usize = 0;
    while j <= n - 4
        invariant
            n == p@.len(),
            4 <= n,
            j <= n - 3,
            forall|t: int| 0 <= t < j ==> !occurs_at(p@, dtb_ext(), t),
        decreases n - j,
    {
        if p.get_char(j) == '.' && p.get_char(j + 1) == 'd' && p.get_char(j + 2) == 't'
            && p.get_char(j + 3) == 'b' {
            assert(p@.subrange(j as int, j + 4) =~= dtb_ext());
            return Some(j);
        }
        assert(!(p@.subrange(j as int, j + 4) =~= dtb_ext()) ==> !occurs_at(p@, dtb_ext(), j as int));
        j = j + 1;
    }
    None
}

} // verus!
