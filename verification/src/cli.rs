//! The decisions of the command line: which certificate a command asks for,
//! for how long, and where the store and exported files lie.
use vstd::prelude::*;

use crate::cert::{files_of, CertificateConfig, CertificateFiles, certificate_files};
use crate::path::{join, joined};
use crate::text::views;

verus! {

/// Seconds in a day.
pub const ONE_DAY_IN_SECONDS: u64 = 86400;

/// Seconds in a year of 365 days.
pub const ONE_YEAR_IN_SECONDS: u64 = 31536000;

/// Ten years of 365 days, in seconds.
pub const TEN_YEARS: u64 = 315360000;

/// One year of 365 days, in seconds.
pub const ONE_YEAR: u64 = 31536000;

/// The kind of certificate that `insert` is asked for.
#[derive(Debug, Clone, Copy, PartialEq, Eq, Structural)]
pub enum CertificateKind {
    /// A root (self-signed) certificate.
    Root,
    /// A client certificate.
    Client,
    /// A server certificate.
    Server,
}

/// Why `insert` refuses its arguments.
#[derive(Debug, Clone, Copy, PartialEq, Eq, Structural)]
pub enum InsertError {
    /// A root certificate takes exactly one name.
    RootNeedsOneName,
    /// A root certificate has no parent.
    RootHasParent,
    /// A client certificate takes exactly one name.
    ClientNeedsOneName,
}

/// The configuration that `insert` asks for: a root takes one name and no
/// parent, a client one name, a server all of them; the parent of a client or
/// server is the one given, else `default_parent`.
pub fn insert_config(
    kind: CertificateKind,
    names: Vec<String>,
    parent: Option<String>,
    default_parent: String,
) -> (r: Result<CertificateConfig, InsertError>)
    requires
        names@.len() > 0,
    ensures
        r matches Err(InsertError::RootNeedsOneName) <==> (kind == CertificateKind::Root
            && names@.len() != 1),
        r matches Err(InsertError::RootHasParent) <==> (kind == CertificateKind::Root
            && names@.len() == 1 && parent is Some),
        r matches Err(InsertError::ClientNeedsOneName) <==> (kind == CertificateKind::Client
            && names@.len() != 1),
        r matches Ok(CertificateConfig::Root { cn }) ==> kind == CertificateKind::Root && cn
            == names@[0],
        r matches Ok(CertificateConfig::Client { cn, parent_cn }) ==> kind
            == CertificateKind::Client && cn == names@[0] && parent_cn == (match parent {
            Some(p) => p,
            None => default_parent,
        }),
        r matches Ok(CertificateConfig::Server { names: ns, parent_cn }) ==> kind
            == CertificateKind::Server && ns == names && parent_cn == (match parent {
            Some(p) => p,
            None => default_parent,
        }),
{
    let has_parent = parent.is_some();
    let parent_cn = match parent {
        Some(p) => p,
        None => default_parent,
    };
    match kind {
        CertificateKind::Root => {
            if names.len() != 1 {
                return Err(InsertError::RootNeedsOneName);
            }
            if has_parent {
                return Err(InsertError::RootHasParent);
            }
            let mut names = names;
            let cn = names.remove(0);
            Ok(CertificateConfig::Root { cn })
        },
        CertificateKind::Client => {
            if names.len() != 1 {
                return Err(InsertError::ClientNeedsOneName);
            }
            let mut names = names;
            let cn = names.remove(0);
            Ok(CertificateConfig::Client { cn, parent_cn })
        },
        CertificateKind::Server => Ok(CertificateConfig::Server { names, parent_cn }),
    }
}

/// The default validity of a kind of certificate: ten years for root and
/// client certificates, one year for server certificates.
pub open spec fn default_validity(kind: CertificateKind) -> u64 {
    match kind {
        CertificateKind::Root | CertificateKind::Client => TEN_YEARS,
        CertificateKind::Server => ONE_YEAR,
    }
}

/// The validity asked for, else the default of the kind.
pub fn validity_seconds(kind: CertificateKind, expires_in: Option<u64>) -> (r: u64)
    ensures
        r == match expires_in {
            Some(v) => v,
            None => default_validity(kind),
        },
{
    match expires_in {
        Some(v) => v,
        None => match kind {
            CertificateKind::Root | CertificateKind::Client => TEN_YEARS,
            CertificateKind::Server => ONE_YEAR,
        },
    }
}

/// The validity of the root certificate that `init` makes: the one asked
/// for, else ten years.
pub fn init_validity(expires_in: Option<u64>) -> (r: u64)
    ensures
        r == match expires_in {
            Some(v) => v,
            None => TEN_YEARS,
        },
{
    match expires_in {
        Some(v) => v,
        None => TEN_YEARS,
    }
}

/// The common name of the default root certificate: the user's name, else
/// `root`.
pub fn root_common_name(user: Option<String>) -> (r: String)
    ensures
        r@ == match user {
            Some(u) => u@,
            None => "root"@,
        },
{
    match user {
        Some(u) => u,
        None => String::from_str("root"),
    }
}

/// The store directory: the one configured, else `.cert-store` in the home
/// directory, else in the temporary directory.
pub fn cert_store_dir(configured: Option<String>, home: Option<String>, temp_dir: String) -> (r:
    String)
    ensures
        r@ == match configured {
            Some(c) => c@,
            None => joined(
                match home {
                    Some(h) => h@,
                    None => temp_dir@,
                },
                ".cert-store"@,
            ),
        },
{
    match configured {
        Some(c) => c,
        None => {
            let base = match home {
                Some(h) => h,
                None => temp_dir,
            };
            join(base.as_str(), ".cert-store")
        },
    }
}

/// The files that `export` reads and writes, and the arguments of the
/// `openssl` invocation that bundles them in PKCS#12.
#[derive(Debug)]
pub struct ExportPlan {
    /// The certificate's files in the store.
    pub files: CertificateFiles,
    /// `NAME.crt` in the output directory.
    pub output_cert: String,
    /// `NAME.key` in the output directory.
    pub output_key: String,
    /// `NAME.pfx` in the output directory.
    pub output_pfx: String,
    /// The arguments of `openssl`.
    pub openssl_args: Vec<String>,
}

/// The arguments of `openssl` that bundle a key and certificate in PKCS#12,
/// with the chain certificate.
pub open spec fn pkcs12_arguments(
    pfx: Seq<char>,
    key: Seq<char>,
    cert: Seq<char>,
    chain: Seq<char>,
) -> Seq<Seq<char>> {
    seq![
        "pkcs12"@,
        "-export"@,
        "-out"@,
        pfx,
        "-inkey"@,
        key,
        "-in"@,
        cert,
        "-certfile"@,
        chain,
    ]
}

/// What exporting the certificate `name` into `output_dir` reads and writes.
pub fn export(store_dir: &str, name: &str, output_dir: &str) -> (r: ExportPlan)
    ensures
        files_of(r.files, store_dir@, name@),
        r.output_cert@ == joined(output_dir@, name@ + ".crt"@),
        r.output_key@ == joined(output_dir@, name@ + ".key"@),
        r.output_pfx@ == joined(output_dir@, name@ + ".pfx"@),
        views(r.openssl_args@) == pkcs12_arguments(
            r.output_pfx@,
            r.output_key@,
            r.output_cert@,
            r.files.cert_pem@,
        ),
{
    let files = certificate_files(store_dir, name);
    let mut cert_name = name.to_owned();
    cert_name.append(".crt");
    let mut key_name = name.to_owned();
    key_name.append(".key");
    let mut pfx_name = name.to_owned();
    pfx_name.append(".pfx");
    let output_cert = join(output_dir, cert_name.as_str());
    let output_key = join(output_dir, key_name.as_str());
    let output_pfx = join(output_dir, pfx_name.as_str());
    let mut args: Vec<String> = Vec::new();
    args.push("pkcs12".to_owned());
    args.push("-export".to_owned());
    args.push("-out".to_owned());
    args.push(output_pfx.clone());
    args.push("-inkey".to_owned());
    args.push(output_key.clone());
    args.push("-in".to_owned());
    args.push(output_cert.clone());
    args.push("-certfile".to_owned());
    args.push(files.cert_pem.clone());
    assert(views(args@) =~= pkcs12_arguments(
        output_pfx@,
        output_key@,
        output_cert@,
        files.cert_pem@,
    ));
    ExportPlan { files, output_cert, output_key, output_pfx, openssl_args: args }
}

} // verus!
