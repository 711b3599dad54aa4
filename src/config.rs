//! Replacement strings and behaviour switches, input / output settings, and the error type.
use std::path::Path;
use vstd::prelude::*;

verus! {

#[verifier::external_type_specification]
#[verifier::external_body]
pub struct ExPath(Path);

/// Replacement strings and behaviour switches, fixed for a whole run.
#[derive(Debug)]
pub struct Config<'a> {
    /// Replacement for a token that is IPv4 text.
    pub ipv4: &'a str,
    /// Replacement for a token that is IPv6 text.
    pub ipv6: &'a str,
    /// Replacement for any other token.
    pub host: &'a str,
    /// Leave out lines that have no token instead of copying them.
    pub skip: bool,
    /// Clear the field after the token, up to the bracketed time field.
    pub authuser: bool,
    /// Remove leading ASCII whitespace from every line.
    pub trim: bool,
    /// Replace every further occurrence of the token in the line.
    pub thorough: bool,
    /// Take a field that starts with `- [` as already cleared.
    pub optimize: bool,
    /// Flush the output after every line.
    pub flush: bool,
}

/// The default replacements stand for localhost: `127.0.0.1`, `::1` and `localhost`.
pub open spec fn is_default_config(c: Config) -> bool {
    &&& c.ipv4@ == "127.0.0.1"@
    &&& c.ipv6@ == "::1"@
    &&& c.host@ == "localhost"@
    &&& !c.skip
    &&& !c.authuser
    &&& c.trim
    &&& !c.thorough
    &&& c.optimize
    &&& !c.flush
}

impl<'a> Default for Config<'a> {
    fn default() -> (r: Self)
        ensures
            is_default_config(r),
    {
        Config {
            ipv4: "127.0.0.1",
            ipv6: "::1",
            host: "localhost",
            skip: false,
            authuser: false,
            trim: true,
            thorough: false,
            optimize: true,
            flush: false,
        }
    }
}

impl<'a> Config<'a> {
    /// The default configuration.
    pub fn new() -> (r: Self)
        ensures
            is_default_config(r),
    {
        Self::default()
    }

    /// The IPv4 replacement.
    pub fn get_ipv4_value(&self) -> (r: &'a str)
        ensures
            r == self.ipv4,
    {
        self.ipv4
    }

    /// The IPv6 replacement.
    pub fn get_ipv6_value(&self) -> (r: &'a str)
        ensures
            r == self.ipv6,
    {
        self.ipv6
    }

    /// The host replacement.
    pub fn get_host_value(&self) -> (r: &'a str)
        ensures
            r == self.host,
    {
        self.host
    }

    /// The `skip` switch.
    pub fn get_skip(&self) -> (r: bool)
        ensures
            r == self.skip,
    {
        self.skip
    }

    /// The `authuser` switch.
    pub fn get_authuser(&self) -> (r: bool)
        ensures
            r == self.authuser,
    {
        self.authuser
    }

    /// The `trim` switch.
    pub fn get_trim(&self) -> (r: bool)
        ensures
            r == self.trim,
    {
        self.trim
    }

    /// The `thorough` switch.
    pub fn get_thorough(&self) -> (r: bool)
        ensures
            r == self.thorough,
    {
        self.thorough
    }

    /// The `optimize` switch.
    pub fn get_optimize(&self) -> (r: bool)
        ensures
            r == self.optimize,
    {
        self.optimize
    }

    /// The `flush` switch.
    pub fn get_flush(&self) -> (r: bool)
        ensures
            r == self.flush,
    {
        self.flush
    }

    /// Sets the IPv4 replacement.
    pub fn set_ipv4_value(&mut self, ipv4: &'a str)
        ensures
            final(self).ipv4 == ipv4,
            final(self).ipv6 == old(self).ipv6,
            final(self).host == old(self).host,
            final(self).skip == old(self).skip,
            final(self).authuser == old(self).authuser,
            final(self).trim == old(self).trim,
            final(self).thorough == old(self).thorough,
            final(self).optimize == old(self).optimize,
            final(self).flush == old(self).flush,
    {
        self.ipv4 = ipv4;
    }

    /// Sets the IPv6 replacement.
    pub fn set_ipv6_value(&mut self, ipv6: &'a str)
        ensures
            final(self).ipv6 == ipv6,
            final(self).ipv4 == old(self).ipv4,
            final(self).host == old(self).host,
            final(self).skip == old(self).skip,
            final(self).authuser == old(self).authuser,
            final(self).trim == old(self).trim,
            final(self).thorough == old(self).thorough,
            final(self).optimize == old(self).optimize,
            final(self).flush == old(self).flush,
    {
        self.ipv6 = ipv6;
    }

    /// Sets the host replacement.
    pub fn set_host_value(&mut self, host: &'a str)
        ensures
            final(self).host == host,
            final(self).ipv4 == old(self).ipv4,
            final(self).ipv6 == old(self).ipv6,
            final(self).skip == old(self).skip,
            final(self).authuser == old(self).authuser,
            final(self).trim == old(self).trim,
            final(self).thorough == old(self).thorough,
            final(self).optimize == old(self).optimize,
            final(self).flush == old(self).flush,
    {
        self.host = host;
    }

    /// Sets the `flush` switch.
    pub fn set_flush(&mut self, b: bool)
        ensures
            final(self).flush == b,
            final(self).ipv4 == old(self).ipv4,
            final(self).ipv6 == old(self).ipv6,
            final(self).host == old(self).host,
            final(self).skip == old(self).skip,
            final(self).authuser == old(self).authuser,
            final(self).trim == old(self).trim,
            final(self).thorough == old(self).thorough,
            final(self).optimize == old(self).optimize,
    {
        self.flush = b;
    }

    /// Sets the `authuser` switch.
    pub fn set_authuser(&mut self, b: bool)
        ensures
            final(self).authuser == b,
            final(self).ipv4 == old(self).ipv4,
            final(self).ipv6 == old(self).ipv6,
            final(self).host == old(self).host,
            final(self).skip == old(self).skip,
            final(self).trim == old(self).trim,
            final(self).thorough == old(self).thorough,
            final(self).optimize == old(self).optimize,
            final(self).flush == old(self).flush,
    {
        self.authuser = b;
    }

    /// Sets the `trim` switch.
    pub fn set_trim(&mut self, b: bool)
        ensures
            final(self).trim == b,
            final(self).ipv4 == old(self).ipv4,
            final(self).ipv6 == old(self).ipv6,
            final(self).host == old(self).host,
            final(self).skip == old(self).skip,
            final(self).authuser == old(self).authuser,
            final(self).thorough == old(self).thorough,
            final(self).optimize == old(self).optimize,
            final(self).flush == old(self).flush,
    {
        self.trim = b;
    }

    /// Sets the `thorough` switch.
    pub fn set_thorough(&mut self, b: bool)
        ensures
            final(self).thorough == b,
            final(self).ipv4 == old(self).ipv4,
            final(self).ipv6 == old(self).ipv6,
            final(self).host == old(self).host,
            final(self).skip == old(self).skip,
            final(self).authuser == old(self).authuser,
            final(self).trim == old(self).trim,
            final(self).optimize == old(self).optimize,
            final(self).flush == old(self).flush,
    {
        self.thorough = b;
    }

    /// Sets the `optimize` switch.
    pub fn set_optimize(&mut self, b: bool)
        ensures
            final(self).optimize == b,
            final(self).ipv4 == old(self).ipv4,
            final(self).ipv6 == old(self).ipv6,
            final(self).host == old(self).host,
            final(self).skip == old(self).skip,
            final(self).authuser == old(self).authuser,
            final(self).trim == old(self).trim,
            final(self).thorough == old(self).thorough,
            final(self).flush == old(self).flush,
    {
        self.optimize = b;
    }

    /// Sets the `skip` switch.
    pub fn set_skip(&mut self, b: bool)
        ensures
            final(self).skip == b,
            final(self).ipv4 == old(self).ipv4,
            final(self).ipv6 == old(self).ipv6,
            final(self).host == old(self).host,
            final(self).authuser == old(self).authuser,
            final(self).trim == old(self).trim,
            final(self).thorough == old(self).thorough,
            final(self).optimize == old(self).optimize,
            final(self).flush == old(self).flush,
    {
        self.skip = b;
    }
}

/// A fatal input / output error, carried as its message.
#[derive(Debug)]
pub struct IOError {
    message: String,
}

impl IOError {
    pub closed spec fn spec_message(&self) -> Seq<char> {
        self.message@
    }

    pub fn new(message: String) -> (r: IOError)
        ensures
            r.spec_message() == message@,
    {
        IOError { message }
    }

    /// The human-readable message.
    pub fn message(&self) -> (r: &str)
        ensures
            r@ == self.spec_message(),
    {
        self.message.as_str()
    }
}

/// Input / output settings.
#[derive(Debug)]
pub struct IOConfig<'a> {
    /// Input files, read in order; `None` reads standard input.
    input: Option<Vec<&'a Path>>,
    /// Output file, appended to; `None` writes to standard output.
    output: Option<&'a Path>,
}

impl<'a> IOConfig<'a> {
    /// The input paths, `None` until one is pushed.
    pub closed spec fn spec_input(&self) -> Option<Seq<&'a Path>> {
        match self.input {
            Some(v) => Some(v@),
            None => None,
        }
    }

    pub closed spec fn spec_output(&self) -> Option<&'a Path> {
        self.output
    }

    /// No input paths (standard input) and no output path (standard output).
    pub fn new() -> (r: Self)
        ensures
            r.spec_input() == None::<Seq<&'a Path>>,
            r.spec_output() == None::<&'a Path>,
    {
        IOConfig { input: None, output: None }
    }

    /// The input paths, if any were pushed.
    pub fn get_input(&self) -> (r: Option<&Vec<&'a Path>>)
        ensures
            match r {
                Some(v) => self.spec_input() == Some(v@),
                None => self.spec_input() == None::<Seq<&'a Path>>,
            },
    {
        match &self.input {
            Some(v) => Some(v),
            None => None,
        }
    }

    /// The output path, if one was set.
    pub fn get_output(&self) -> (r: Option<&'a Path>)
        ensures
            r == self.spec_output(),
    {
        self.output
    }

    /// Appends an input path.
    pub fn push_input(&mut self, i: &'a Path)
        ensures
            final(self).spec_input() == Some(
                match old(self).spec_input() {
                    Some(s) => s,
                    None => Seq::<&'a Path>::empty(),
                }.push(i),
            ),
            final(self).spec_output() == old(self).spec_output(),
    {
        match &mut self.input {
            Some(v) => v.push(i),
            None => {
                let mut v: Vec<&'a Path> = Vec::new();
                v.push(i);
                self.input = Some(v);
            },
        }
    }

    /// Sets the output path.
    pub fn set_output(&mut self, o: &'a Path)
        ensures
            final(self).spec_output() == Some(o),
            final(self).spec_input() == old(self).spec_input(),
    {
        self.output = Some(o);
    }
}

impl<'a> Default for IOConfig<'a> {
    fn default() -> (r: Self)
        ensures
            r.spec_input() == None::<Seq<&'a Path>>,
            r.spec_output() == None::<&'a Path>,
    {
        IOConfig::new()
    }
}

} // verus!
