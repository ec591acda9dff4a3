use vstd::prelude::*;

verus! {

/// The mode byte of normal output.
const NORMAL: u8 = 78u8;

/// How scan results are to be written, and the ports to write.
pub struct Outfile {
    mode: char,
    ports: Vec<u16>,
}

impl Outfile {
    pub closed spec fn mode_of(&self) -> char {
        self.mode
    }

    pub closed spec fn ports_of(&self) -> Seq<u16> {
        self.ports@
    }

    /// An outfile for the mode given by the first byte of `mode`: only `N` (normal) is
    /// known; any other mode is refused.
    pub fn new(mode: &[u8]) -> (r: Result<Self, &'static str>)
        requires
            mode@.len() > 0,
        ensures
            mode@[0] == 78u8 <==> r is Ok,
            r matches Ok(o) ==> o.mode_of() == 'N' && o.ports_of() == Seq::<u16>::empty(),
            r matches Err(e) ==> e@ == "tonto tonto puto tonto"@,
    {
        let mode = match mode[0] {
            NORMAL => 'N',
            _ => return Err("tonto tonto puto tonto"),
        };
        Ok(Self { mode, ports: Vec::new() })
    }
}

} // verus!
