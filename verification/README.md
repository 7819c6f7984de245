# rxyz

The templates of the renderling.xyz website, as a library whose behaviour is stated in
contracts and proved by Verus:

- `src/text.rs`: character-level string functions (trimming, replacing, anchors).
- `src/date.rs`: calendar dates of feed items and the chrono calls that read and print them.
- `src/feed.rs`: news entries and articles as feed items, and the RSS and Atom documents.
- `src/html.rs`: HTML trees and their text, as mogwai's server-side renderer prints them.
- `src/md.rs`: markdown syntax trees, frontmatter, heading anchors, link references, raw
  HTML read with `html_parser`, and the HTML view made of a document.
- `src/site.rs`: links under the site's root URL, the stylesheet and the page template.
- `src/config.rs`: where the site is deployed in each environment.

`app/` is the build task around the library: it runs git and cargo, reads the content
directory, parses markdown and YAML with their crates, and writes the feeds.
