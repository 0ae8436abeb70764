use vstd::prelude::*;

verus! {

/// When diagnostic output is colored.
#[derive(Clone, Copy, Debug, PartialEq, Eq, Structural)]
pub enum Coloring {
    Auto,
    Always,
    Never,
}

impl Coloring {
    /// The textual name of the choice.
    pub fn as_str(self) -> (r: &'static str)
        ensures
            self is Auto ==> r@ == "auto"@,
            self is Always ==> r@ == "always"@,
            self is Never ==> r@ == "never"@,
    {
        match self {
            Coloring::Auto => "auto",
            Coloring::Always => "always",
            Coloring::Never => "never",
        }
    }

    /// Reads a choice back from its textual name: exactly the three names
    /// are accepted, each yielding its own variant.
    pub fn from_str(color: &str) -> (r: Option<Coloring>)
        ensures
            (r == Option::Some(Coloring::Auto)) == (color@ == "auto"@),
            (r == Option::Some(Coloring::Always)) == (color@ == "always"@),
            (r == Option::Some(Coloring::Never)) == (color@ == "never"@),
            (r is None) == (color@ != "auto"@ && color@ != "always"@ && color@ != "never"@),
    {
        proof {
            reveal_strlit("auto");
            reveal_strlit("always");
            reveal_strlit("never");
            assert("auto"@.len() == 4);
            assert("always"@.len() == 6);
            assert("never"@.len() == 5);
        }
        let c = color.to_owned();
        if c == "auto".to_owned() {
            Some(Coloring::Auto)
        } else if c == "always".to_owned() {
            Some(Coloring::Always)
        } else if c == "never".to_owned() {
            Some(Coloring::Never)
        } else {
            None
        }
    }
}

} // verus!
