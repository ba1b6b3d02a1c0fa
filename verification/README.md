# lucky_star

`lucky_star` judges astronomical images in FITS files: it finds their stars,
computes quality metrics, looks for a star pattern, and decides which files a
filter rejects and how the rest is divided into folders.

- `src/` is the library. Every function in it is verified with Verus.
  - `double`: IEEE 754 binary64 numbers on their bit patterns
  - `order`, `lists`, `text`, `paths`, `helpers`: sorting, sequences, numbers as
    text, file paths, medians
  - `pixels`, `canvas`: the pixels of an image and pictures that are drawn on
  - `detect`, `star`, `astro_image`: stars and the quality of an image
  - `constellation`, `star_pattern`: finding and making star patterns
  - `metrics`, `rules`, `cache`: metrics, filters, and stored metrics
  - `session`, `report`, `chart`, `draw`: a directory of images and its reports
  - `config`, `clock`: settings and the time
- `app/` is the program: arguments, files, FITS headers, and what needs floating
  point.
- `tests/` runs the library on concrete values.
