//! Syntax highlighting themes: which palette color each highlight name gets.
use vstd::prelude::*;

verus! {

broadcast use vstd::string::group_string_axioms;

/// Highlight specification used for syntax highlighting using Tree-sitter.
pub struct HighlightSpec {
    /// Names of the Tree-sitter nodes. Syntax specific
    pub names: Vec<String>,
    /// indices into Base16 palette
    pub indices: Vec<usize>,
}

/// The characters of each string.
pub open spec fn strings_view(v: Seq<String>) -> Seq<Seq<char>> {
    v.map_values(|s: String| s@)
}

impl HighlightSpec {
    /// A specification from highlight names and the palette index of each.
    pub fn new(names: Vec<&str>, indices: Vec<usize>) -> (spec: Self)
        ensures
            strings_view(spec.names@) == names@.map_values(|s: &str| s@),
            spec.indices@ == indices@,
    {
        let mut owned: Vec<String> = Vec::new();
        let mut i: usize = 0;
        while i < names.len()
            invariant
                i <= names@.len(),
                strings_view(owned@) == names@.take(i as int).map_values(|s: &str| s@),
            decreases names@.len() - i,
        {
            let s = names[i].to_string();
            let ghost prev = owned@;
            owned.push(s);
            assert(strings_view(owned@) =~= strings_view(prev).push(names@[i as int]@));
            assert(names@.take(i + 1).map_values(|s: &str| s@) =~= names@.take(i as int).map_values(
                |s: &str| s@,
            ).push(names@[i as int]@));
            i = i + 1;
        }
        assert(names@.take(names@.len() as int) =~= names@);
        HighlightSpec { indices, names: owned }
    }
}

/// Syntax specific syntax highlighting theme settings, over a color type `C`.
pub struct SyntaxTheme<C> {
    /// Names of the Tree-sitter nodes. Syntax specific
    pub highlight_names: Vec<String>,
    /// The color of each name, taken from the Base16 palette
    pub highlight_colors: Vec<C>,
    pub default_color: C,
}

/// Index of the first string equal to `name`, if any.
pub open spec fn first_index_of(names: Seq<Seq<char>>, name: Seq<char>) -> Option<int>
    decreases names.len(),
{
    if names.len() == 0 {
        None
    } else {
        match first_index_of(names.drop_last(), name) {
            Some(k) => Some(k),
            None => if names.last() == name {
                Some(names.len() - 1)
            } else {
                None
            },
        }
    }
}

proof fn lemma_first_index_of(names: Seq<Seq<char>>, name: Seq<char>)
    ensures
        match first_index_of(names, name) {
            Some(k) => 0 <= k < names.len() && names[k] == name && forall|j: int|
                0 <= j < k ==> names[j] != name,
            None => forall|j: int| 0 <= j < names.len() ==> names[j] != name,
        },
    decreases names.len(),
{
    if names.len() > 0 {
        let init = names.drop_last();
        lemma_first_index_of(init, name);
        assert forall|j: int| 0 <= j < init.len() implies init[j] == names[j] by {}
    }
}

impl<C: Copy> SyntaxTheme<C> {
    /// Pick the color of every highlight name from the palette; the default
    /// color is palette entry 5 (the default foreground of Base16).
    pub fn from_base16_and_spec(base: [C; 16], spec: HighlightSpec) -> (t: Self)
        requires
            forall|i: int| 0 <= i < spec.indices@.len() ==> #[trigger] spec.indices@[i] < 16,
        ensures
            t.highlight_names@ == spec.names@,
            t.highlight_colors@.len() == spec.indices@.len(),
            forall|i: int|
                0 <= i < spec.indices@.len() ==> #[trigger] t.highlight_colors@[i]
                    == base@[spec.indices@[i] as int],
            t.default_color == base@[5],
    {
        let mut colors: Vec<C> = Vec::with_capacity(spec.indices.len());
        let mut i: usize = 0;
        while i < spec.indices.len()
            invariant
                i <= spec.indices@.len(),
                forall|j: int| 0 <= j < spec.indices@.len() ==> #[trigger] spec.indices@[j] < 16,
                colors@.len() == i,
                forall|j: int|
                    0 <= j < i ==> #[trigger] colors@[j] == base@[spec.indices@[j] as int],
            decreases spec.indices@.len() - i,
        {
            let idx = spec.indices[i];
            assert(idx < 16);
            colors.push(base[idx]);
            i = i + 1;
        }
        SyntaxTheme { highlight_names: spec.names, highlight_colors: colors, default_color: base[5] }
    }

    /// The color of the first highlight name equal to `name`, if there is one
    /// and it has a color.
    pub fn color_for_name(&self, name: &str) -> (c: Option<C>)
        ensures
            c == match first_index_of(strings_view(self.highlight_names@), name@) {
                Some(k) => if k < self.highlight_colors@.len() {
                    Some(self.highlight_colors@[k])
                } else {
                    None
                },
                None => None,
            },
    {
        let ghost names = strings_view(self.highlight_names@);
        proof {
            lemma_first_index_of(names, name@);
        }
        let wanted = name.to_string();
        let mut i: usize = 0;
        while i < self.highlight_names.len()
            invariant
                names == strings_view(self.highlight_names@),
                wanted@ == name@,
                i <= names.len(),
                forall|j: int| 0 <= j < i ==> names[j] != name@,
            decreases names.len() - i,
        {
            if self.highlight_names[i] == wanted {
                assert(names[i as int] == name@);
                proof {
                    lemma_first_index_of(names, name@);
                }
                if i < self.highlight_colors.len() {
                    return Some(self.highlight_colors[i]);
                } else {
                    return None;
                }
            }
            i = i + 1;
        }
        proof {
            lemma_first_index_of(names, name@);
        }
        None
    }
}


/// Looking a name up in a theme built from a palette and a highlight
/// specification gives the palette entry of the first index listed for that
/// name (nothing when the name is not listed).
pub proof fn lemma_color_for_name_of_built_theme<C>(
    names: Seq<Seq<char>>,
    indices: Seq<usize>,
    colors: Seq<C>,
    base: Seq<C>,
    name: Seq<char>,
)
    requires
        names.len() == indices.len(),
        colors.len() == indices.len(),
        forall|i: int| 0 <= i < indices.len() ==> #[trigger] colors[i] == base[indices[i] as int],
    ensures
        match first_index_of(names, name) {
            Some(k) => 0 <= k < colors.len() && colors[k] == base[indices[k] as int],
            None => forall|j: int| 0 <= j < names.len() ==> names[j] != name,
        },
{
    lemma_first_index_of(names, name);
}

} // verus!
