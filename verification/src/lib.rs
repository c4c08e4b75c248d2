//! `swh_resolver` resolves code metadata `(repo, commit_prefix, rel_path)` to Software
//! Heritage content SWHIDs (`swh:1:cnt:<sha1_git>`) over the compressed archive graph.
//!
//! Every module of [`ntf`] is verified: each function states in its contract what it
//! returns or changes, and the laws that tie the functions together are proved in
//! [`ntf::laws`], [`ntf::scratch_laws`] and [`ntf::text_laws`].

pub mod ntf;
